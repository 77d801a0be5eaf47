//! Verified text helpers: decimal rendering of counters, parsing of
//! comma-separated bucket boundary lists, parent-directory derivation, and
//! substring search for exclusion patterns.

use vstd::prelude::*;

verus! {

use vstd::string::StrSliceExecFns;
use vstd::string::StringExecFns;

/// The decimal digit character for `d`.
pub open spec fn dec_digit(d: int) -> char {
    if d == 0 {
        '0'
    } else if d == 1 {
        '1'
    } else if d == 2 {
        '2'
    } else if d == 3 {
        '3'
    } else if d == 4 {
        '4'
    } else if d == 5 {
        '5'
    } else if d == 6 {
        '6'
    } else if d == 7 {
        '7'
    } else if d == 8 {
        '8'
    } else {
        '9'
    }
}

/// The decimal rendering of a nonnegative number, most significant digit
/// first, with no leading zero except for the number 0 itself.
pub open spec fn dec_rep(n: int) -> Seq<char>
    decreases n,
{
    if n < 10 {
        seq![dec_digit(n)]
    } else {
        dec_rep(n / 10).push(dec_digit(n % 10))
    }
}

/// The one-character string for a decimal digit.
fn digit_str(d: u64) -> (s: &'static str)
    requires
        d < 10,
    ensures
        s@ =~= seq![dec_digit(d as int)],
{
    proof {
        reveal_strlit("0");
        reveal_strlit("1");
        reveal_strlit("2");
        reveal_strlit("3");
        reveal_strlit("4");
        reveal_strlit("5");
        reveal_strlit("6");
        reveal_strlit("7");
        reveal_strlit("8");
        reveal_strlit("9");
    }
    if d == 0 {
        "0"
    } else if d == 1 {
        "1"
    } else if d == 2 {
        "2"
    } else if d == 3 {
        "3"
    } else if d == 4 {
        "4"
    } else if d == 5 {
        "5"
    } else if d == 6 {
        "6"
    } else if d == 7 {
        "7"
    } else if d == 8 {
        "8"
    } else {
        "9"
    }
}

/// Appends the decimal rendering of `n` to `out`.
fn push_dec(n: u64, out: &mut String)
    ensures
        final(out)@ == old(out)@ + dec_rep(n as int),
    decreases n,
{
    if n >= 10 {
        push_dec(n / 10, out);
        let d = digit_str(n % 10);
        let ghost mid = out@;
        out.append(d);
        proof {
            assert(out@ =~= mid.push(dec_digit((n % 10) as int)));
            assert(out@ =~= old(out)@ + dec_rep(n as int));
        }
    } else {
        let d = digit_str(n);
        out.append(d);
        proof {
            assert(out@ =~= old(out)@ + dec_rep(n as int));
        }
    }
}

/// Renders a counter in decimal.
pub fn u64_to_string(n: u64) -> (s: String)
    ensures
        s@ == dec_rep(n as int),
{
    let mut s = String::new();
    push_dec(n, &mut s);
    proof {
        assert(s@ =~= dec_rep(n as int));
    }
    s
}

/// The value of a digit character, if it is one.
pub open spec fn spec_digit_of(c: char) -> Option<int> {
    if c == '0' {
        Option::Some(0)
    } else if c == '1' {
        Option::Some(1)
    } else if c == '2' {
        Option::Some(2)
    } else if c == '3' {
        Option::Some(3)
    } else if c == '4' {
        Option::Some(4)
    } else if c == '5' {
        Option::Some(5)
    } else if c == '6' {
        Option::Some(6)
    } else if c == '7' {
        Option::Some(7)
    } else if c == '8' {
        Option::Some(8)
    } else if c == '9' {
        Option::Some(9)
    } else {
        Option::None
    }
}

fn digit_of(c: char) -> (d: Option<u64>)
    ensures
        d matches Option::Some(v) ==> spec_digit_of(c) == Option::Some(v as int),
        d is None <==> spec_digit_of(c) is None,
{
    if c == '0' {
        Option::Some(0)
    } else if c == '1' {
        Option::Some(1)
    } else if c == '2' {
        Option::Some(2)
    } else if c == '3' {
        Option::Some(3)
    } else if c == '4' {
        Option::Some(4)
    } else if c == '5' {
        Option::Some(5)
    } else if c == '6' {
        Option::Some(6)
    } else if c == '7' {
        Option::Some(7)
    } else if c == '8' {
        Option::Some(8)
    } else if c == '9' {
        Option::Some(9)
    } else {
        Option::None
    }
}

/// Every character of the sequence is a decimal digit.
pub open spec fn all_digits(s: Seq<char>) -> bool {
    forall|i: int| 0 <= i < s.len() ==> spec_digit_of(#[trigger] s[i]) is Some
}

/// The numeric value of a digit sequence read in decimal.
pub open spec fn dec_value(s: Seq<char>) -> int
    decreases s.len(),
{
    if s.len() == 0 {
        0
    } else {
        dec_value(s.drop_last()) * 10 + match spec_digit_of(s.last()) {
            Option::Some(v) => v,
            Option::None => 0,
        }
    }
}

/// The value of a digit sequence is nonnegative.
pub proof fn lemma_dec_value_nonneg(s: Seq<char>)
    requires
        all_digits(s),
    ensures
        dec_value(s) >= 0,
    decreases s.len(),
{
    if s.len() > 0 {
        assert(all_digits(s.drop_last()));
        lemma_dec_value_nonneg(s.drop_last());
    }
}

/// Extending a digit sequence never lowers its value.
pub proof fn lemma_dec_value_prefix(s: Seq<char>, i: int)
    requires
        all_digits(s),
        0 <= i <= s.len(),
    ensures
        dec_value(s) >= dec_value(s.take(i)),
    decreases s.len() - i,
{
    if i < s.len() {
        lemma_dec_value_prefix(s, i + 1);
        assert(all_digits(s.take(i))) by {
            assert(forall|j: int| 0 <= j < i ==> s.take(i)[j] == s[j]);
        }
        lemma_dec_value_nonneg(s.take(i));
        assert(s.take(i + 1).drop_last() =~= s.take(i));
        assert(s.take(i + 1).last() == s[i]);
        assert(dec_value(s.take(i + 1)) >= dec_value(s.take(i)));
    } else {
        assert(s.take(i) =~= s);
    }
}

/// Whitespace as the boundary parsers strip: space, tab, carriage return and
/// line feed.
pub open spec fn is_space(c: char) -> bool {
    c == ' ' || c == '\t' || c == '\r' || c == '\n'
}

fn space_char(c: char) -> (b: bool)
    ensures
        b == is_space(c),
{
    c == ' ' || c == '\t' || c == '\r' || c == '\n'
}

/// The sequence without leading whitespace.
pub open spec fn trim_front(s: Seq<char>) -> Seq<char>
    decreases s.len(),
{
    if s.len() > 0 && is_space(s.first()) {
        trim_front(s.drop_first())
    } else {
        s
    }
}

/// The sequence without trailing whitespace.
pub open spec fn trim_back(s: Seq<char>) -> Seq<char>
    decreases s.len(),
{
    if s.len() > 0 && is_space(s.last()) {
        trim_back(s.drop_last())
    } else {
        s
    }
}

/// The sequence without leading or trailing whitespace.
pub open spec fn trimmed(s: Seq<char>) -> Seq<char> {
    trim_back(trim_front(s))
}

/// The digit part of a boundary entry: whitespace is stripped and one leading
/// `+` sign is accepted.
pub open spec fn entry_digits(s: Seq<char>) -> Seq<char> {
    let t = trimmed(s);
    if t.len() > 0 && t.first() == '+' {
        t.drop_first()
    } else {
        t
    }
}

/// The value of one boundary entry, when it is a well-formed number that fits
/// in a `u64`.
pub open spec fn entry_value(s: Seq<char>) -> Option<int> {
    let d = entry_digits(s);
    if d.len() > 0 && all_digits(d) && dec_value(d) <= u64::MAX {
        Option::Some(dec_value(d))
    } else {
        Option::None
    }
}

/// Parses the characters of one boundary entry.
#[verifier::loop_isolation(false)]
fn parse_entry(chars: &Vec<char>) -> (r: Option<u64>)
    ensures
        r matches Option::Some(v) ==> entry_value(chars@) == Option::Some(v as int),
        r is None <==> entry_value(chars@) is None,
{
    let n = chars.len();
    let mut lo: usize = 0;
    proof {
        assert(chars@.skip(0) =~= chars@);
    }
    while lo < n && space_char(chars[lo])
        invariant
            0 <= lo <= n,
            n == chars@.len(),
            trim_front(chars@) == trim_front(chars@.skip(lo as int)),
        decreases n - lo,
    {
        proof {
            assert(chars@.skip(lo as int).drop_first() =~= chars@.skip(lo as int + 1));
        }
        lo = lo + 1;
    }
    let mut hi: usize = n;
    proof {
        if lo < n {
            assert(chars@.skip(lo as int).first() == chars@[lo as int]);
            assert(!is_space(chars@.skip(lo as int).first()));
        } else {
            assert(chars@.skip(lo as int).len() == 0);
        }
        assert(trim_front(chars@) == chars@.skip(lo as int));
        assert(chars@.subrange(lo as int, n as int) =~= chars@.skip(lo as int));
    }
    while hi > lo && space_char(chars[hi - 1])
        invariant
            lo <= hi <= n,
            n == chars@.len(),
            trim_front(chars@) == chars@.skip(lo as int),
            lo < n ==> !is_space(chars@[lo as int]),
            trimmed(chars@) == trim_back(chars@.subrange(lo as int, hi as int)),
        decreases hi,
    {
        proof {
            let cur = chars@.subrange(lo as int, hi as int);
            assert(cur.last() == chars@[hi - 1]);
            assert(cur.drop_last() =~= chars@.subrange(lo as int, hi as int - 1));
        }
        hi = hi - 1;
    }
    proof {
        let cur = chars@.subrange(lo as int, hi as int);
        if hi > lo {
            assert(!is_space(cur.last()));
        }
        assert(trimmed(chars@) == cur);
    }
    let ghost t = chars@.subrange(lo as int, hi as int);
    let mut start: usize = lo;
    if hi > lo && chars[lo] == '+' {
        start = lo + 1;
        proof {
            assert(t.drop_first() =~= chars@.subrange(lo as int + 1, hi as int));
        }
    }
    let ghost d = entry_digits(chars@);
    proof {
        assert(d == chars@.subrange(start as int, hi as int));
    }
    if start == hi {
        return Option::None;
    }
    let mut value: u64 = 0;
    let mut i: usize = start;
    while i < hi
        invariant
            start <= i <= hi <= n,
            n == chars@.len(),
            d == chars@.subrange(start as int, hi as int),
            all_digits(d.take(i - start)),
            value == dec_value(d.take(i - start)),
        decreases hi - i,
    {
        let c = chars[i];
        proof {
            assert(d[i - start] == chars@[i as int]);
        }
        match digit_of(c) {
            Option::Some(dv) => {
                match value.checked_mul(10) {
                    Option::Some(v10) => {
                        match v10.checked_add(dv) {
                            Option::Some(v) => {
                                proof {
                                    assert(d.take(i - start + 1).drop_last() =~= d.take(
                                        i - start,
                                    ));
                                    assert(d.take(i - start + 1).last() == d[i - start]);
                                }
                                value = v;
                            },
                            Option::None => {
                                proof {
                                    overflow_case(d, i - start, value, dv);
                                }
                                return Option::None;
                            },
                        }
                    },
                    Option::None => {
                        proof {
                            overflow_case(d, i - start, value, dv);
                        }
                        return Option::None;
                    },
                }
            },
            Option::None => {
                return Option::None;
            },
        }
        i = i + 1;
    }
    proof {
        assert(d.take(hi - start) =~= d);
    }
    Option::Some(value)
}

/// When one more digit overflows a `u64`, the whole entry's value does not
/// fit.
proof fn overflow_case(d: Seq<char>, i: int, value: u64, dv: u64)
    requires
        0 <= i < d.len(),
        all_digits(d.take(i)),
        value == dec_value(d.take(i)),
        spec_digit_of(d[i]) == Option::Some(dv as int),
        value * 10 + dv > u64::MAX,
    ensures
        entry_value_overflows(d),
{
    assert(d.take(i + 1).drop_last() =~= d.take(i));
    assert(d.take(i + 1).last() == d[i]);
    assert(dec_value(d.take(i + 1)) == value * 10 + dv);
    assert(all_digits(d.take(i + 1))) by {
        assert(forall|j: int| 0 <= j < i ==> d.take(i + 1)[j] == d.take(i)[j]);
        assert(d.take(i + 1)[i] == d[i]);
    }
    if all_digits(d) {
        lemma_dec_value_prefix(d, i + 1);
        assert(dec_value(d) > u64::MAX);
    }
}

/// The entry is all digits but its value exceeds `u64::MAX`, or some
/// character is not a digit.
pub open spec fn entry_value_overflows(d: Seq<char>) -> bool {
    !all_digits(d) || dec_value(d) > u64::MAX
}

/// The pieces of a character sequence split on commas; a sequence without a
/// comma is one piece.
#[verifier::opaque]
pub open spec fn split_commas(s: Seq<char>) -> Seq<Seq<char>>
    decreases s.len(),
{
    if exists|i: int| 0 <= i < s.len() && s[i] == ','
    {
        let i = first_comma(s);
        if 0 <= i < s.len() {
            seq![s.take(i)] + split_commas(s.skip(i + 1))
        } else {
            seq![s]
        }
    } else {
        seq![s]
    }
}

/// The index of the first comma of the sequence.
pub open spec fn first_comma(s: Seq<char>) -> int {
    choose|i: int|
        0 <= i < s.len() && s[i] == ',' && forall|j: int| 0 <= j < i ==> s[j] != ','
}

/// The first comma is well defined when a comma exists.
proof fn lemma_first_comma(s: Seq<char>, w: int)
    requires
        0 <= w < s.len(),
        s[w] == ',',
    ensures
        0 <= first_comma(s) < s.len(),
        s[first_comma(s)] == ',',
        forall|j: int| 0 <= j < first_comma(s) ==> s[j] != ',',
    decreases w,
{
    if forall|j: int| 0 <= j < w ==> s[j] != ',' {
        assert(0 <= w < s.len() && s[w] == ',' && forall|j: int| 0 <= j < w ==> s[j] != ',');
    } else {
        let w2 = choose|j: int| 0 <= j < w && s[j] == ',';
        lemma_first_comma(s, w2);
    }
}

/// Splitting starts with the piece before the first comma.
proof fn lemma_split_at_comma(s: Seq<char>, from: int, i: int)
    requires
        0 <= from <= i < s.len(),
        s[i] == ',',
        forall|j: int| from <= j < i ==> s[j] != ',',
    ensures
        split_commas(s.skip(from)) =~= seq![s.subrange(from, i)] + split_commas(
            s.skip(i + 1),
        ),
{
    reveal(split_commas);
    let t = s.skip(from);
    assert forall|j: int| 0 <= j < i - from implies t[j] != ',' by {
        assert(t[j] == s[from + j]);
    }
    assert(t[i - from] == s[i]);
    lemma_first_comma(t, i - from);
    assert(first_comma(t) == i - from);
    assert(t.take(i - from) =~= s.subrange(from, i));
    assert(t.skip(i - from + 1) =~= s.skip(i + 1));
}

/// A remainder without a comma is a single piece.
proof fn lemma_split_no_comma(s: Seq<char>, from: int)
    requires
        0 <= from <= s.len(),
        forall|j: int| from <= j < s.len() ==> s[j] != ',',
    ensures
        split_commas(s.skip(from)) =~= seq![s.skip(from)],
{
    reveal(split_commas);
    let t = s.skip(from);
    if exists|i: int| 0 <= i < t.len() && t[i] == ',' {
        let w = choose|i: int| 0 <= i < t.len() && t[i] == ',';
        assert(s[from + w] == ',');
        assert(false);
    }
}

/// Peeling the head of a suffix advances the consumed prefix by one.
proof fn lemma_take_step<A>(all: Seq<A>, k: int, x: A, rest: Seq<A>)
    requires
        0 <= k <= all.len(),
        all =~= all.take(k) + (seq![x] + rest),
    ensures
        all[k] == x,
        all.take(k + 1) =~= all.take(k).push(x),
        all =~= all.take(k + 1) + rest,
{
    assert(all.take(k) =~= (all.take(k) + (seq![x] + rest)).take(k));
}

/// Every comma-separated entry parses to a value that fits in a `u64`.
pub open spec fn all_entries_parse(s: Seq<char>) -> bool {
    forall|k: int|
        0 <= k < split_commas(s).len() ==> entry_value(#[trigger] split_commas(s)[k]) is Some
}

/// The parsed values of the comma-separated entries.
pub open spec fn entry_values(s: Seq<char>) -> Seq<int> {
    split_commas(s).map_values(
        |p: Seq<char>|
            match entry_value(p) {
                Option::Some(v) => v,
                Option::None => 0,
            },
    )
}

/// Parses a comma-separated list of numeric boundary entries. Returns the
/// values in entry order exactly when every entry is a number that fits in a
/// `u64`; whitespace around an entry and one leading `+` are accepted.
#[verifier::rlimit(100)]
pub fn parse_bucket_list(s: &str) -> (r: Option<Vec<u64>>)
    ensures
        r matches Option::Some(v) ==> {
            &&& all_entries_parse(s@)
            &&& v@.map_values(|x: u64| x as int) =~= entry_values(s@)
        },
        r is None <==> !all_entries_parse(s@),
{
    let n = s.unicode_len();
    let mut out: Vec<u64> = Vec::new();
    let mut piece: Vec<char> = Vec::new();
    let mut from: usize = 0;
    let mut i: usize = 0;
    proof {
        assert(s@.skip(0) =~= s@);
    }
    while i < n
        invariant
            0 <= from <= i <= n,
            n == s@.len(),
            piece@ =~= s@.subrange(from as int, i as int),
            forall|j: int| from <= j < i ==> s@[j] != ',',
            split_commas(s@) =~= split_commas_done(out@.len() as int, s@) + split_commas(
                s@.skip(from as int),
            ),
            all_parsed(out@, s@, from as int),
        decreases n - i,
    {
        let c = s.get_char(i);
        if c == ',' {
            let v = parse_entry(&piece);
            proof {
                lemma_split_at_comma(s@, from as int, i as int);
                lemma_take_step(
                    split_commas(s@),
                    out@.len() as int,
                    s@.subrange(from as int, i as int),
                    split_commas(s@.skip(i as int + 1)),
                );
            }
            match v {
                Option::Some(val) => {
                    proof {
                        reveal(piece_parsed);
                        assert(piece_parsed(s@, out@.len() as int, val));
                    }
                    out.push(val);
                },
                Option::None => {
                    proof {
                        assert(entry_value(split_commas(s@)[out@.len() as int]) is None);
                    }
                    return Option::None;
                },
            }
            piece = Vec::new();
            from = i + 1;
            proof {
                assert(piece@ =~= s@.subrange(from as int, i as int + 1));
            }
        } else {
            piece.push(c);
            proof {
                assert(piece@ =~= s@.subrange(from as int, i as int + 1));
            }
        }
        i = i + 1;
    }
    let v = parse_entry(&piece);
    proof {
        lemma_split_no_comma(s@, from as int);
        lemma_take_step(
            split_commas(s@),
            out@.len() as int,
            s@.skip(from as int),
            Seq::<Seq<char>>::empty(),
        );
        assert(piece@ =~= s@.skip(from as int));
    }
    match v {
        Option::Some(val) => {
            proof {
                reveal(piece_parsed);
                assert(piece_parsed(s@, out@.len() as int, val));
            }
            out.push(val);
            proof {
                reveal(piece_parsed);
                assert(split_commas(s@).len() == out@.len());
                assert forall|k: int| 0 <= k < out@.len()
                    implies entry_value(#[trigger] split_commas(s@)[k]) == Option::Some(
                    out@[k] as int,
                ) by {
                    assert(piece_parsed(s@, k, out@[k]));
                }
                assert(out@.map_values(|x: u64| x as int) =~= entry_values(s@));
            }
            Option::Some(out)
        },
        Option::None => Option::None,
    }
}

/// The pieces already consumed: the first `k` pieces of the split.
pub open spec fn split_commas_done(k: int, s: Seq<char>) -> Seq<Seq<char>> {
    split_commas(s).take(k)
}

spec fn split_done_len(s: Seq<char>, from: int) -> int {
    split_commas(s).len() - split_commas(s.skip(from)).len()
}

/// Entry `k` of the split parsed to the value `v`.
#[verifier::opaque]
spec fn piece_parsed(s: Seq<char>, k: int, v: u64) -> bool {
    entry_value(split_commas(s)[k]) == Option::Some(v as int)
}

spec fn all_parsed(out: Seq<u64>, s: Seq<char>, from: int) -> bool {
    &&& out.len() == split_done_len(s, from)
    &&& forall|k: int| 0 <= k < out.len() ==> #[trigger] piece_parsed(s, k, out[k])
}

/// The position after the last path separator of `s`, or -1 when `s` has
/// none.
pub open spec fn last_sep(s: Seq<char>) -> int
    decreases s.len(),
{
    if s.len() == 0 {
        -1
    } else if s.last() == '/' {
        s.len() - 1
    } else {
        last_sep(s.drop_last())
    }
}

/// The parent directory of a path: the prefix before the last separator; a
/// path directly under the root keeps the leading separator; a path without
/// a separator has no parent.
pub open spec fn parent_view(s: Seq<char>) -> Option<Seq<char>> {
    if last_sep(s) < 0 {
        Option::None
    } else if last_sep(s) == 0 {
        Option::Some(s.take(1))
    } else {
        Option::Some(s.take(last_sep(s)))
    }
}

/// Derives the parent directory of a path, as `parent_view` states it.
#[verifier::loop_isolation(false)]
pub fn parent_dir(path: &str) -> (r: Option<String>)
    ensures
        r matches Option::Some(p) ==> parent_view(path@) == Option::Some(p@),
        r is None <==> parent_view(path@) is None,
{
    let n = path.unicode_len();
    let mut i: usize = n;
    proof {
        assert(path@.take(n as int) =~= path@);
    }
    while i > 0
        invariant
            0 <= i <= n,
            n == path@.len(),
            last_sep(path@) == last_sep(path@.take(i as int)),
        decreases i,
    {
        let c = path.get_char(i - 1);
        proof {
            assert(path@.take(i as int).last() == path@[i - 1]);
            assert(path@.take(i as int).drop_last() =~= path@.take(i as int - 1));
        }
        if c == '/' {
            let cut: usize = if i == 1 {
                1
            } else {
                i - 1
            };
            let sub = path.substring_char(0, cut);
            proof {
                assert(last_sep(path@) == i - 1);
                assert(sub@ =~= path@.take(cut as int));
            }
            return Option::Some(sub.to_owned());
        }
        i = i - 1;
    }
    proof {
        assert(path@.take(0) =~= Seq::<char>::empty());
    }
    Option::None
}

/// Whether `needle` occurs contiguously in `hay`.
pub open spec fn has_substring(hay: Seq<char>, needle: Seq<char>) -> bool {
    exists|i: int|
        0 <= i <= hay.len() - needle.len() && #[trigger] hay.subrange(i, i + needle.len())
            == needle
}

/// Searches for `needle` in `hay`, as `has_substring` states it.
#[verifier::loop_isolation(false)]
pub fn contains_sub(hay: &str, needle: &str) -> (r: bool)
    ensures
        r == has_substring(hay@, needle@),
{
    let hl = hay.unicode_len();
    let nl = needle.unicode_len();
    if nl > hl {
        return false;
    }
    let mut i: usize = 0;
    while i <= hl - nl
        invariant
            0 <= i <= hl - nl + 1,
            nl <= hl,
            hl == hay@.len(),
            nl == needle@.len(),
            forall|t: int|
                0 <= t < i ==> #[trigger] hay@.subrange(t, t + needle@.len()) != needle@,
        decreases hl - i,
    {
        let mut j: usize = 0;
        let mut matched = true;
        while matched && j < nl
            invariant
                0 <= j <= nl,
                matched ==> forall|t: int| 0 <= t < j ==> hay@[i + t] == needle@[t],
                !matched ==> hay@.subrange(i as int, i + needle@.len()) != needle@,
            decreases (if matched {
                1int
            } else {
                0int
            }), nl - j,
        {
            if hay.get_char(i + j) != needle.get_char(j) {
                proof {
                    assert(hay@.subrange(i as int, i + needle@.len())[j as int] != needle@[
                        j as int
                    ]);
                }
                matched = false;
            } else {
                j = j + 1;
            }
        }
        if matched {
            proof {
                assert(hay@.subrange(i as int, i + needle@.len()) =~= needle@);
            }
            return true;
        }
        proof {
            if nl == 0 {
                assert(hay@.subrange(i as int, i as int) =~= needle@);
            }
        }
        i = i + 1;
    }
    false
}

} // verus!
