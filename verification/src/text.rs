//! Text helpers: whitespace trimming and decimal rendering of counts.

use vstd::prelude::*;
use vstd::string::StrSliceExecFns;
use vstd::string::StringExecFns;

verus! {

/// The characters with the Unicode `White_Space` property.
pub open spec fn is_space(c: char) -> bool {
    let u = c as u32;
    u == 0x20 || (0x09 <= u && u <= 0x0D) || u == 0x85 || u == 0xA0 || u == 0x1680 || (0x2000 <= u
        && u <= 0x200A) || u == 0x2028 || u == 0x2029 || u == 0x202F || u == 0x205F || u == 0x3000
}

/// The sequence with leading and trailing whitespace removed.
pub open spec fn trimmed(s: Seq<char>) -> Seq<char>
    decreases s.len(),
{
    if s.len() > 0 && is_space(s[0]) {
        trimmed(s.drop_first())
    } else if s.len() > 0 && is_space(s.last()) {
        trimmed(s.drop_last())
    } else {
        s
    }
}

fn is_space_char(c: char) -> (r: bool)
    ensures
        r == is_space(c),
{
    let u = c as u32;
    u == 0x20 || (0x09 <= u && u <= 0x0D) || u == 0x85 || u == 0xA0 || u == 0x1680 || (0x2000 <= u
        && u <= 0x200A) || u == 0x2028 || u == 0x2029 || u == 0x202F || u == 0x205F || u == 0x3000
}

/// Removes leading and trailing whitespace.
pub fn trim(s: &str) -> (r: String)
    ensures
        r@ == trimmed(s@),
{
    let n = s.unicode_len();
    proof {
        assert(s@.subrange(0, n as int) =~= s@);
    }
    let mut a: usize = 0;
    while a < n && is_space_char(s.get_char(a))
        invariant
            0 <= a <= n,
            n == s@.len(),
            trimmed(s@) == trimmed(s@.subrange(a as int, n as int)),
        decreases n - a,
    {
        proof {
            let suffix = s@.subrange(a as int, n as int);
            assert(suffix.drop_first() =~= s@.subrange(a as int + 1, n as int));
        }
        a = a + 1;
    }
    proof {
        assert(s@.subrange(0, n as int) =~= s@);
    }
    if a == n {
        proof {
            assert(s@.subrange(a as int, n as int) =~= Seq::<char>::empty());
        }
        String::new()
    } else {
        let mut b: usize = n;
        while b > a && is_space_char(s.get_char(b - 1))
            invariant
                a < b <= n,
                n == s@.len(),
                !is_space(s@[a as int]),
                trimmed(s@) == trimmed(s@.subrange(a as int, b as int)),
            decreases b,
        {
            proof {
                let part = s@.subrange(a as int, b as int);
                assert(part[0] == s@[a as int]);
                assert(part.last() == s@[b - 1]);
                assert(part.drop_last() =~= s@.subrange(a as int, b as int - 1));
            }
            b = b - 1;
        }
        proof {
            let part = s@.subrange(a as int, b as int);
            assert(part[0] == s@[a as int]);
            assert(part.last() == s@[b - 1]);
        }
        s.substring_char(a, b).to_owned()
    }
}

/// The decimal digit for a value below ten.
pub open spec fn digit_char(d: int) -> char
    recommends
        0 <= d <= 9,
{
    if d == 0 {
        '0'
    } else if d == 1 {
        '1'
    } else if d == 2 {
        '2'
    } else if d == 3 {
        '3'
    } else if d == 4 {
        '4'
    } else if d == 5 {
        '5'
    } else if d == 6 {
        '6'
    } else if d == 7 {
        '7'
    } else if d == 8 {
        '8'
    } else {
        '9'
    }
}

/// The decimal rendering of a number, most significant digit first.
pub open spec fn dec_str(n: nat) -> Seq<char>
    decreases n,
{
    if n < 10 {
        seq![digit_char(n as int)]
    } else {
        dec_str(n / 10) + seq![digit_char((n % 10) as int)]
    }
}

fn digit_string(d: usize) -> (r: String)
    requires
        d <= 9,
    ensures
        r@ =~= seq![digit_char(d as int)],
{
    proof {
        reveal_strlit("0");
        reveal_strlit("1");
        reveal_strlit("2");
        reveal_strlit("3");
        reveal_strlit("4");
        reveal_strlit("5");
        reveal_strlit("6");
        reveal_strlit("7");
        reveal_strlit("8");
        reveal_strlit("9");
    }
    match d {
        0 => "0".to_owned(),
        1 => "1".to_owned(),
        2 => "2".to_owned(),
        3 => "3".to_owned(),
        4 => "4".to_owned(),
        5 => "5".to_owned(),
        6 => "6".to_owned(),
        7 => "7".to_owned(),
        8 => "8".to_owned(),
        _ => "9".to_owned(),
    }
}

/// Renders a count in decimal.
pub fn render_usize(n: usize) -> (r: String)
    ensures
        r@ == dec_str(n as nat),
    decreases n,
{
    if n < 10 {
        let r = digit_string(n);
        proof {
            assert(r@ =~= dec_str(n as nat));
        }
        r
    } else {
        let mut r = render_usize(n / 10);
        let d = digit_string(n % 10);
        r.append(d.as_str());
        proof {
            assert(r@ =~= dec_str(n as nat));
        }
        r
    }
}

} // verus!
