use vstd::prelude::*;
use vstd::string::{StrSliceExecFns, StringExecFns};

verus! {

/// The character of the decimal digit `d`.
pub open spec fn digit_char(d: nat) -> char {
    if d < 10 {
        (d + '0' as nat) as char
    } else {
        '?'
    }
}

/// The base-10 digits of `n`, most significant first, without leading zeros.
pub open spec fn decimal(n: nat) -> Seq<char>
    decreases n,
{
    if n < 10 {
        seq![digit_char(n)]
    } else {
        decimal(n / 10).push(digit_char(n % 10))
    }
}

pub open spec fn log_suffix() -> Seq<char> {
    seq!['.', 'l', 'o', 'g']
}

/// The name of the segment file of generation `gen`: `<gen>.log`.
pub open spec fn file_name(gen: nat) -> Seq<char> {
    decimal(gen) + log_suffix()
}

pub open spec fn is_digit(c: char) -> bool {
    '0' <= c && c <= '9'
}

/// The number that the decimal digits `d` spell.
pub open spec fn digits_value(d: Seq<char>) -> nat
    decreases d.len(),
{
    if d.len() == 0 {
        0
    } else {
        digits_value(d.drop_last()) * 10 + (d.last() as nat - '0' as nat) as nat
    }
}

/// The generation that a file named `s` holds: `s` is one or more decimal
/// digits followed by `.log`, and the number they spell fits in a `u64`.
pub open spec fn gen_of_name(s: Seq<char>) -> Option<u64> {
    let d = s.take(s.len() - 4);
    if s.len() > 4 && s.skip(s.len() - 4) == log_suffix() && (forall|i: int|
        0 <= i < d.len() ==> is_digit(#[trigger] d[i])) && digits_value(d) <= u64::MAX {
        Some(digits_value(d) as u64)
    } else {
        None
    }
}

/// The generations that the files named `names` hold, in the same order;
/// names of other files are skipped.
pub open spec fn gens_of(names: Seq<Seq<char>>) -> Seq<u64>
    decreases names.len(),
{
    if names.len() == 0 {
        Seq::empty()
    } else {
        let before = gens_of(names.drop_last());
        match gen_of_name(names.last()) {
            Some(g) => before.push(g),
            None => before,
        }
    }
}

/// The one-character string of the decimal digit `d`.
fn digit_str(d: u64) -> (r: &'static str)
    requires
        d < 10,
    ensures
        r@ == seq![digit_char(d as nat)],
{
    proof {
        reveal_strlit("0");
        reveal_strlit("1");
        reveal_strlit("2");
        reveal_strlit("3");
        reveal_strlit("4");
        reveal_strlit("5");
        reveal_strlit("6");
        reveal_strlit("7");
        reveal_strlit("8");
        reveal_strlit("9");
    }
    let r = if d == 0 {
        "0"
    } else if d == 1 {
        "1"
    } else if d == 2 {
        "2"
    } else if d == 3 {
        "3"
    } else if d == 4 {
        "4"
    } else if d == 5 {
        "5"
    } else if d == 6 {
        "6"
    } else if d == 7 {
        "7"
    } else if d == 8 {
        "8"
    } else {
        "9"
    };
    assert(r@ =~= seq![digit_char(d as nat)]);
    r
}

/// Appends the decimal digits of `n` to `out`.
fn push_decimal(out: &mut String, n: u64)
    ensures
        final(out)@ == old(out)@ + decimal(n as nat),
    decreases n,
{
    if n >= 10 {
        push_decimal(out, n / 10);
    }
    out.append(digit_str(n % 10));
    assert(decimal(n as nat) == if n < 10 {
        seq![digit_char(n as nat)]
    } else {
        decimal((n / 10) as nat).push(digit_char((n % 10) as nat))
    });
    assert(final(out)@ =~= old(out)@ + decimal(n as nat));
}

/// The name of the segment file of generation `gen`.
pub fn segment_file_name(gen: u64) -> (r: String)
    ensures
        r@ == file_name(gen as nat),
{
    let mut r = String::new();
    push_decimal(&mut r, gen);
    proof {
        reveal_strlit(".log");
    }
    r.append(".log");
    assert(r@ =~= file_name(gen as nat));
    r
}

/// `dir` joined with `name`: a `/` goes between them unless `dir` is empty
/// or already ends in one.
pub open spec fn join(dir: Seq<char>, name: Seq<char>) -> Seq<char> {
    if dir.len() == 0 || dir.last() == '/' {
        dir + name
    } else {
        dir + seq!['/'] + name
    }
}

/// The path of the segment file of generation `gen` in the directory `dir`.
pub fn log_path(dir: &str, gen: u64) -> (r: String)
    ensures
        r@ == join(dir@, file_name(gen as nat)),
{
    let mut r = String::from_str(dir);
    let n = dir.unicode_len();
    if n > 0 && dir.get_char(n - 1) != '/' {
        proof {
            reveal_strlit("/");
        }
        r.append("/");
    }
    let name = segment_file_name(gen);
    r.append(name.as_str());
    assert(r@ =~= join(dir@, file_name(gen as nat)));
    r
}

/// A longer run of digits spells at least as large a number.
proof fn lemma_digits_value_prefix(d: Seq<char>, i: int, j: int)
    requires
        0 <= i <= j <= d.len(),
        forall|k: int| 0 <= k < d.len() ==> is_digit(#[trigger] d[k]),
    ensures
        digits_value(d.take(i)) <= digits_value(d.take(j)),
    decreases j - i,
{
    if i < j {
        lemma_digits_value_prefix(d, i, j - 1);
        assert(d.take(j).drop_last() =~= d.take(j - 1));
    }
}

/// The generation that the file named `name` holds, if it is a segment file.
pub fn parse_gen(name: &str) -> (r: Option<u64>)
    ensures
        r == gen_of_name(name@),
{
    let n = name.unicode_len();
    if n <= 4 {
        return None;
    }
    let ghost s = name@;
    let ghost d = s.take(s.len() - 4);
    let stem = n - 4;
    if name.get_char(stem) != '.' || name.get_char(stem + 1) != 'l' || name.get_char(stem + 2) != 'o'
        || name.get_char(stem + 3) != 'g' {
        proof {
            if s.skip(s.len() - 4) == log_suffix() {
                assert(s.skip(s.len() - 4)[0] == s[stem as int]);
                assert(s.skip(s.len() - 4)[1] == s[stem + 1]);
                assert(s.skip(s.len() - 4)[2] == s[stem + 2]);
                assert(s.skip(s.len() - 4)[3] == s[stem + 3]);
            }
        }
        return None;
    }
    assert(s.skip(s.len() - 4) =~= log_suffix());
    let mut v: u64 = 0;
    let mut i: usize = 0;
    while i < stem
        invariant
            n == s.len(),
            s == name@,
            stem == n - 4,
            d == s.take(s.len() - 4),
            i <= stem,
            forall|k: int| 0 <= k < i ==> is_digit(#[trigger] d[k]),
            v == digits_value(d.take(i as int)),
        decreases stem - i,
    {
        let c = name.get_char(i);
        assert(d[i as int] == c);
        if !('0' <= c && c <= '9') {
            return None;
        }
        let dv = (c as u32 - '0' as u32) as u64;
        assert(d.take(i as int + 1).drop_last() =~= d.take(i as int));
        if v > (u64::MAX - dv) / 10 {
            proof {
                if forall|k: int| 0 <= k < d.len() ==> is_digit(#[trigger] d[k]) {
                    lemma_digits_value_prefix(d, i as int + 1, d.len() as int);
                    assert(d.take(d.len() as int) =~= d);
                }
            }
            return None;
        }
        v = v * 10 + dv;
        i = i + 1;
    }
    assert(d.take(i as int) =~= d);
    Some(v)
}

/// The generations of the segment files among the files named `names`, in
/// the order of `names`.
pub fn gen_list(names: &Vec<String>) -> (r: Vec<u64>)
    ensures
        r@ == gens_of(names@.map_values(|s: String| s@)),
{
    let ghost views = names@.map_values(|s: String| s@);
    let mut r: Vec<u64> = Vec::new();
    let mut i: usize = 0;
    while i < names.len()
        invariant
            i <= names@.len(),
            views == names@.map_values(|s: String| s@),
            r@ == gens_of(views.take(i as int)),
        decreases names@.len() - i,
    {
        assert(views.take(i as int + 1).drop_last() =~= views.take(i as int));
        assert(views[i as int] == names@[i as int]@);
        if let Some(g) = parse_gen(names[i].as_str()) {
            r.push(g);
        }
        i = i + 1;
    }
    assert(views.take(i as int) =~= views);
    r
}

/// Relies on `slice::sort`: the same elements, in ascending order.
#[verifier::external_body]
fn sort_u64(v: &mut Vec<u64>)
    ensures
        final(v)@.to_multiset() == old(v)@.to_multiset(),
        forall|i: int, j: int| 0 <= i <= j < final(v)@.len() ==> final(v)@[i] <= final(v)@[j],
{
    v.sort();
}

/// The generations `gens` in the order they are replayed: ascending.
pub fn replay_order(gens: Vec<u64>) -> (r: Vec<u64>)
    ensures
        r@.to_multiset() == gens@.to_multiset(),
        forall|i: int, j: int| 0 <= i <= j < r@.len() ==> r@[i] <= r@[j],
{
    let mut r = gens;
    sort_u64(&mut r);
    r
}

} // verus!
