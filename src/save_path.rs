use vstd::prelude::*;

verus! {

/// Folder that screenshots, saved feeds and recordings go to.
pub const OUTPUT_FOLDER: &'static str = "output";

pub open spec fn is_digit(c: char) -> bool {
    '0' <= c && c <= '9'
}

pub open spec fn digit_value(c: char) -> int {
    c as int - '0' as int
}

pub open spec fn all_digits(s: Seq<char>) -> bool {
    forall|k: int| 0 <= k < s.len() ==> is_digit(#[trigger] s[k])
}

/// The number that a run of decimal digits spells.
pub open spec fn digits_value(s: Seq<char>) -> int
    decreases s.len(),
{
    if s.len() == 0 {
        0
    } else {
        digits_value(s.drop_last()) * 10 + digit_value(s.last())
    }
}

/// `s` without its leading sign, if it has one.
pub open spec fn unsigned_part(s: Seq<char>) -> Seq<char> {
    if s.len() > 0 && (s[0] == '-' || s[0] == '+') {
        s.drop_first()
    } else {
        s
    }
}

/// `s` read as an `i32`: an optional `+` or `-`, then one or more decimal
/// digits, with a value in the range of `i32`.
pub open spec fn parse_i32(s: Seq<char>) -> Option<int> {
    let negative = s.len() > 0 && s[0] == '-';
    let body = unsigned_part(s);
    if body.len() == 0 || !all_digits(body) {
        None
    } else {
        let v = if negative {
            -digits_value(body)
        } else {
            digits_value(body)
        };
        if i32::MIN <= v <= i32::MAX {
            Some(v)
        } else {
            None
        }
    }
}

/// Position of the first `-` in `s` at or after `from`, or the length of `s`.
pub open spec fn find_dash(s: Seq<char>, from: int) -> int
    decreases s.len() - from,
{
    if from >= s.len() || from < 0 {
        s.len() as int
    } else if s[from] == '-' {
        from
    } else {
        find_dash(s, from + 1)
    }
}

/// The number in front of the first `-` of a file name, as in `7-out.mp4`.
pub open spec fn name_number(s: Seq<char>) -> Option<int> {
    let p = find_dash(s, 0);
    if p >= s.len() {
        None
    } else {
        parse_i32(s.subrange(0, p))
    }
}

/// Largest number that starts a name of `names`, and at least zero.
pub open spec fn largest_number(names: Seq<String>) -> int
    decreases names.len(),
{
    if names.len() == 0 {
        0
    } else {
        let m = largest_number(names.drop_last());
        match name_number(names.last()@) {
            Some(v) => if v > m {
                v
            } else {
                m
            },
            None => m,
        }
    }
}

/// Decimal digits of `n`, most significant first.
pub open spec fn decimal(n: nat) -> Seq<char>
    decreases n,
{
    if n < 10 {
        seq![(('0' as int) + n) as char]
    } else {
        decimal(n / 10) + seq![(('0' as int) + n % 10) as char]
    }
}

proof fn lemma_parse_not_digits(s: Seq<char>)
    requires
        !all_digits(unsigned_part(s)),
    ensures
        parse_i32(s).is_none(),
{
}

proof fn lemma_digits_value_nonneg(s: Seq<char>)
    requires
        all_digits(s),
    ensures
        digits_value(s) >= 0,
    decreases s.len(),
{
    if s.len() > 0 {
        lemma_digits_value_nonneg(s.drop_last());
    }
}

/// A longer run of digits is worth at least as much as its beginning.
proof fn lemma_digits_value_prefix(s: Seq<char>, t: int)
    requires
        all_digits(s),
        0 <= t <= s.len(),
    ensures
        digits_value(s) >= digits_value(s.subrange(0, t)),
    decreases s.len(),
{
    if t < s.len() {
        assert(s.drop_last().subrange(0, t) =~= s.subrange(0, t));
        lemma_digits_value_prefix(s.drop_last(), t);
        lemma_digits_value_nonneg(s.drop_last());
    } else {
        assert(s.subrange(0, t) =~= s);
    }
}

fn digit_text(d: u64) -> (r: &'static str)
    requires
        d < 10,
    ensures
        r@ == seq![(('0' as int) + d) as char],
{
    proof {
        reveal_strlit("0");
        reveal_strlit("1");
        reveal_strlit("2");
        reveal_strlit("3");
        reveal_strlit("4");
        reveal_strlit("5");
        reveal_strlit("6");
        reveal_strlit("7");
        reveal_strlit("8");
        reveal_strlit("9");
    }
    if d == 0 {
        "0"
    } else if d == 1 {
        "1"
    } else if d == 2 {
        "2"
    } else if d == 3 {
        "3"
    } else if d == 4 {
        "4"
    } else if d == 5 {
        "5"
    } else if d == 6 {
        "6"
    } else if d == 7 {
        "7"
    } else if d == 8 {
        "8"
    } else {
        "9"
    }
}

/// Appends the decimal digits of `n` to `s`.
fn append_decimal(s: &mut String, n: u64)
    ensures
        final(s)@ == old(s)@ + decimal(n as nat),
    decreases n,
{
    if n >= 10 {
        append_decimal(s, n / 10);
    }
    s.append(digit_text(n % 10));
    proof {
        if n >= 10 {
            assert(final(s)@ =~= old(s)@ + decimal(n as nat));
        } else {
            assert(final(s)@ =~= old(s)@ + decimal(n as nat));
        }
    }
}

/// Reads `s` as an `i32` the way `str::parse` does.
pub fn parse_number(s: &str) -> (r: Option<i64>)
    ensures
        r.is_some() == parse_i32(s@).is_some(),
        r.is_some() ==> r.unwrap() as int == parse_i32(s@).unwrap(),
{
    let n = s.unicode_len();
    let mut b: usize = 0;
    let mut negative = false;
    if n > 0 {
        let c = s.get_char(0);
        if c == '-' {
            negative = true;
            b = 1;
        } else if c == '+' {
            b = 1;
        }
    }
    let ghost body = s@.subrange(b as int, n as int);
    let ghost spec_body = unsigned_part(s@);
    proof {
        assert(b == 1 <==> (s@.len() > 0 && (s@[0] == '-' || s@[0] == '+')));
        assert(negative <==> (s@.len() > 0 && s@[0] == '-'));
        if b == 1 {
            assert(body =~= s@.drop_first());
        } else {
            assert(body =~= s@);
        }
        assert(body == spec_body);
    }
    if b >= n {
        return None;
    }
    let mut acc: i64 = 0;
    let mut k: usize = b;
    while k < n
        invariant
            b <= k <= n,
            n == s@.len(),
            body == s@.subrange(b as int, n as int),
            body == unsigned_part(s@),
            negative <==> (s@.len() > 0 && s@[0] == '-'),
            all_digits(s@.subrange(b as int, k as int)),
            acc == digits_value(s@.subrange(b as int, k as int)),
            0 <= acc <= 0x8000_0000,
        decreases n - k,
    {
        let c = s.get_char(k);
        if !('0' <= c && c <= '9') {
            proof {
                assert(body[k - b] == c);
                assert(!all_digits(body));
                lemma_parse_not_digits(s@);
            }
            return None;
        }
        let ghost prev = s@.subrange(b as int, k as int);
        let ghost next = s@.subrange(b as int, k + 1);
        proof {
            assert(next.drop_last() =~= prev);
            assert(next.last() == c);
        }
        acc = acc * 10 + (c as u32 - '0' as u32) as i64;
        k = k + 1;
        if acc > 0x8000_0000 {
            proof {
                if all_digits(body) {
                    assert(body.subrange(0, k - b) =~= s@.subrange(b as int, k as int));
                    lemma_digits_value_prefix(body, k - b);
                    assert(digits_value(body) > 0x8000_0000);
                }
            }
            return None;
        }
    }
    proof {
        assert(s@.subrange(b as int, k as int) =~= body);
    }
    if negative {
        Some(-acc)
    } else if acc > 0x7fff_ffff {
        None
    } else {
        Some(acc)
    }
}

/// The number in front of the first `-` of `name`, if it reads as an `i32`.
pub fn leading_number(name: &str) -> (r: Option<i64>)
    ensures
        r.is_some() == name_number(name@).is_some(),
        r.is_some() ==> r.unwrap() as int == name_number(name@).unwrap(),
{
    let n = name.unicode_len();
    let mut p: usize = 0;
    while p < n && name.get_char(p) != '-'
        invariant
            p <= n,
            n == name@.len(),
            find_dash(name@, 0) == find_dash(name@, p as int),
        decreases n - p,
    {
        p = p + 1;
    }
    if p >= n {
        return None;
    }
    parse_number(name.substring_char(0, p))
}

/// Largest number in front of a `-` among `names`, and at least zero.
pub fn largest_saved_number(names: &Vec<String>) -> (r: i64)
    ensures
        r as int == largest_number(names@),
        0 <= r <= i32::MAX,
{
    let mut best: i64 = 0;
    let mut i: usize = 0;
    while i < names.len()
        invariant
            i <= names.len(),
            best == largest_number(names@.subrange(0, i as int)),
            0 <= best <= i32::MAX,
        decreases names.len() - i,
    {
        proof {
            let pre = names@.subrange(0, i as int + 1);
            assert(pre.drop_last() =~= names@.subrange(0, i as int));
            assert(pre.last() == names@[i as int]);
        }
        match leading_number(names[i].as_str()) {
            Some(v) => {
                if v > best {
                    best = v;
                }
            },
            None => {},
        }
        i = i + 1;
    }
    proof {
        assert(names@.subrange(0, names@.len() as int) =~= names@);
    }
    best
}

/// Path for a new file called `name` in the output folder, numbered one past
/// the largest number already in front of a `-` in `existing`, the names of the
/// files already there: `output/<n>-<name>`.
pub fn get_save_filepath(existing: &Vec<String>, name: &str) -> (r: String)
    ensures
        r@ == OUTPUT_FOLDER@ + seq!['/'] + decimal((largest_number(existing@) + 1) as nat) + seq![
            '-',
        ] + name@,
{
    let next = largest_saved_number(existing) + 1;
    let mut path = String::from_str(OUTPUT_FOLDER);
    proof {
        reveal_strlit("/");
        reveal_strlit("-");
    }
    path.append("/");
    append_decimal(&mut path, next as u64);
    path.append("-");
    path.append(name);
    path
}

} // verus!
