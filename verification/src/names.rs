use vstd::prelude::*;
use vstd::string::StringExecFns;
use crate::text::digit_char;

verus! {

/// The upper-case hexadecimal digit that writes `d`, for `d` below sixteen.
pub open spec fn hex_char(d: nat) -> char {
    if d < 10 {
        digit_char(d)
    } else {
        (d - 10 + 'A' as u32) as u8 as char
    }
}

/// The last `width` hexadecimal digits of `n`, most significant first,
/// zeros included.
pub open spec fn hex_fixed(n: nat, width: nat) -> Seq<char>
    decreases width,
{
    if width == 0 {
        Seq::empty()
    } else {
        hex_fixed(n / 16, (width - 1) as nat).push(hex_char(n % 16))
    }
}

/// The display name drawn from a 16-bit sample: `Player` and four
/// hexadecimal digits.
pub open spec fn name_text(sample: u16) -> Seq<char> {
    "Player"@ + hex_fixed(sample as nat, 4)
}

/// The colour drawn from a 32-bit sample: `#` and the six hexadecimal digits
/// of the sample's upper 24 bits.
pub open spec fn color_text(sample: u32) -> Seq<char> {
    "#"@ + hex_fixed((sample / 256) as nat, 6)
}

/// The one-character text of the hexadecimal digit `d`.
fn hex_text(d: u32) -> (s: &'static str)
    requires
        d < 16,
    ensures
        s@ == seq![hex_char(d as nat)],
{
    proof {
        reveal_strlit("0");
        reveal_strlit("1");
        reveal_strlit("2");
        reveal_strlit("3");
        reveal_strlit("4");
        reveal_strlit("5");
        reveal_strlit("6");
        reveal_strlit("7");
        reveal_strlit("8");
        reveal_strlit("9");
        reveal_strlit("A");
        reveal_strlit("B");
        reveal_strlit("C");
        reveal_strlit("D");
        reveal_strlit("E");
        reveal_strlit("F");
    }
    let s = match d {
        0 => "0",
        1 => "1",
        2 => "2",
        3 => "3",
        4 => "4",
        5 => "5",
        6 => "6",
        7 => "7",
        8 => "8",
        9 => "9",
        10 => "A",
        11 => "B",
        12 => "C",
        13 => "D",
        14 => "E",
        _ => "F",
    };
    proof {
        assert(s@ =~= seq![hex_char(d as nat)]);
    }
    s
}

/// Appends the last `width` hexadecimal digits of `n` to `out`.
fn push_hex(out: &mut String, n: u32, width: u32)
    ensures
        final(out)@ == old(out)@ + hex_fixed(n as nat, width as nat),
    decreases width,
{
    if width > 0 {
        push_hex(out, n / 16, width - 1);
        out.append(hex_text(n % 16));
        proof {
            let front = hex_fixed((n / 16) as nat, (width - 1) as nat);
            let d = hex_char((n % 16) as nat);
            assert(old(out)@ + front + seq![d] =~= old(out)@ + front.push(d));
        }
    } else {
        proof {
            assert(old(out)@ + Seq::<char>::empty() =~= old(out)@);
        }
    }
}

/// The display name for a 16-bit sample.
pub fn player_name(sample: u16) -> (name: String)
    ensures
        name@ == name_text(sample),
{
    let mut out = String::from_str("Player");
    push_hex(&mut out, sample as u32, 4);
    out
}

/// The colour for a 32-bit sample.
pub fn player_color(sample: u32) -> (color: String)
    ensures
        color@ == color_text(sample),
{
    let mut out = String::from_str("#");
    push_hex(&mut out, sample / 256, 6);
    out
}

/// Calls `rand::random::<u16>()`, which draws a number from the thread's
/// generator. Nothing is claimed of the number drawn. The first draw on a
/// thread seeds the generator from the operating system and panics if the
/// system gives no entropy; no argument of the caller bears on that.
#[verifier::external_body]
fn random_u16() -> (sample: u16) {
    rand::random::<u16>()
}

/// Calls `rand::random::<u32>()`, which draws a number from the thread's
/// generator. Nothing is claimed of the number drawn. The first draw on a
/// thread seeds the generator from the operating system and panics if the
/// system gives no entropy; no argument of the caller bears on that.
#[verifier::external_body]
fn random_u32() -> (sample: u32) {
    rand::random::<u32>()
}

/// A name and a colour for a new player, drawn at random. Whatever is drawn,
/// the name is `Player` with four hexadecimal digits and the colour is `#`
/// with six.
pub fn random_player_data() -> (data: (String, String))
    ensures
        exists|a: u16, b: u32| data.0@ == name_text(a) && data.1@ == color_text(b),
{
    let a = random_u16();
    let b = random_u32();
    let data = (player_name(a), player_color(b));
    proof {
        assert(data.0@ == name_text(a) && data.1@ == color_text(b));
    }
    data
}

} // verus!
