//! Small verified text utilities: decimal rendering and parsing, joining,
//! line splitting and trimming.  The rest of the crate states its contracts
//! over the spec functions defined here.

use vstd::assert_by_contradiction;
use vstd::prelude::*;

verus! {

/// The character for a single decimal digit value.
pub open spec fn digit_char(d: nat) -> char {
    if d == 0 { '0' }
    else if d == 1 { '1' }
    else if d == 2 { '2' }
    else if d == 3 { '3' }
    else if d == 4 { '4' }
    else if d == 5 { '5' }
    else if d == 6 { '6' }
    else if d == 7 { '7' }
    else if d == 8 { '8' }
    else { '9' }
}

/// Decimal digits of `n`, most significant first, without sign or padding.
pub open spec fn dec_of(n: nat) -> Seq<char>
    decreases n,
{
    let last = digit_char((n % 10) as nat);
    if n < 10 {
        seq![last]
    } else {
        dec_of(n / 10) + seq![last]
    }
}

pub proof fn lemma_dec_of_len(n: nat)
    ensures
        dec_of(n).len() >= 1,
    decreases n,
{
    if n >= 10 {
        lemma_dec_of_len(n / 10);
    }
}

/// Distinct numbers render to distinct digit strings.
pub proof fn lemma_dec_of_injective(a: nat, b: nat)
    requires
        dec_of(a) == dec_of(b),
    ensures
        a == b,
    decreases a,
{
    lemma_dec_of_len(a);
    lemma_dec_of_len(b);
    if a < 10 && b < 10 {
        assert(dec_of(a)[0] == digit_char(a % 10));
        assert(dec_of(b)[0] == digit_char(b % 10));
    } else if a < 10 {
        lemma_dec_of_len(b / 10);
        assert(dec_of(b).len() >= 2);
    } else if b < 10 {
        lemma_dec_of_len(a / 10);
        assert(dec_of(a).len() >= 2);
    } else {
        let la = dec_of(a / 10);
        let lb = dec_of(b / 10);
        assert(la + seq![digit_char((a % 10) as nat)] == lb + seq![digit_char((b % 10) as nat)]);
        assert(la.len() == lb.len());
        assert(la =~= lb) by {
            assert forall|i: int| 0 <= i < la.len() implies la[i] == lb[i] by {
                assert(la[i] == (la + seq![digit_char((a % 10) as nat)])[i]);
                assert(lb[i] == (lb + seq![digit_char((b % 10) as nat)])[i]);
            }
        }
        lemma_dec_of_injective(a / 10, b / 10);
        let ca = (la + seq![digit_char((a % 10) as nat)]).last();
        let cb = (lb + seq![digit_char((b % 10) as nat)]).last();
        assert(ca == cb);
        assert(digit_char((a % 10) as nat) == digit_char((b % 10) as nat));
        assert(a % 10 == b % 10);
    }
}

fn digit_str(d: u64) -> (s: &'static str)
    requires
        d < 10,
    ensures
        s@ == seq![digit_char(d as nat)],
{
    proof {
        reveal_strlit("0");
        reveal_strlit("1");
        reveal_strlit("2");
        reveal_strlit("3");
        reveal_strlit("4");
        reveal_strlit("5");
        reveal_strlit("6");
        reveal_strlit("7");
        reveal_strlit("8");
        reveal_strlit("9");
    }
    if d == 0 { "0" }
    else if d == 1 { "1" }
    else if d == 2 { "2" }
    else if d == 3 { "3" }
    else if d == 4 { "4" }
    else if d == 5 { "5" }
    else if d == 6 { "6" }
    else if d == 7 { "7" }
    else if d == 8 { "8" }
    else { "9" }
}

/// Renders `n` in decimal.
pub fn u64_to_string(n: u64) -> (s: String)
    ensures
        s@ == dec_of(n as nat),
    decreases n,
{
    let d: u64 = n % 10;
    let digit: &str = digit_str(d);
    if n < 10 {
        let mut s = String::new();
        s.append(digit);
        s
    } else {
        let mut s = u64_to_string(n / 10);
        s.append(digit);
        s
    }
}

/// Character-wise equality of two string slices.
pub fn str_eq(a: &str, b: &str) -> (r: bool)
    ensures
        r == (a@ == b@),
{
    let la = a.unicode_len();
    let lb = b.unicode_len();
    if la != lb {
        assert(a@ != b@);
        return false;
    }
    let mut i: usize = 0;
    while i < la
        invariant
            0 <= i <= la,
            la as nat == a@.len(),
            la as nat == b@.len(),
            forall|j: int| 0 <= j < i ==> a@[j] == b@[j],
        decreases la - i,
    {
        if a.get_char(i) != b.get_char(i) {
            assert(a@[i as int] != b@[i as int]);
            return false;
        }
        i += 1;
    }
    assert(a@ =~= b@);
    true
}

/// The parts joined with `sep` between consecutive parts.
pub open spec fn joined(parts: Seq<Seq<char>>, sep: Seq<char>) -> Seq<char>
    decreases parts.len(),
{
    if parts.len() == 0 {
        Seq::<char>::empty()
    } else if parts.len() == 1 {
        parts[0]
    } else {
        joined(parts.drop_last(), sep) + sep + parts.last()
    }
}

/// Joins the strings with the separator between consecutive elements.
pub fn join_strings(parts: &Vec<String>, sep: &str) -> (r: String)
    ensures
        r@ == joined(parts.deep_view(), sep@),
{
    let mut r = String::new();
    let mut i: usize = 0;
    while i < parts.len()
        invariant
            0 <= i <= parts.len(),
            r@ == joined(parts.deep_view().take(i as int), sep@),
        decreases parts.len() - i,
    {
        if i > 0 {
            r.append(sep);
        }
        r.append(parts[i].as_str());
        proof {
            let dv = parts.deep_view();
            assert(dv.take(i + 1).drop_last() =~= dv.take(i as int));
            assert(dv.take(i + 1).last() == dv[i as int]);
            assert(dv[i as int] == parts@[i as int]@);
        }
        i += 1;
    }
    proof {
        assert(parts.deep_view().take(parts.len() as int) =~= parts.deep_view());
    }
    r
}

/// The lines of `s`, split at `'\n'`; a final newline ends the last line
/// rather than opening an empty one.
pub open spec fn split_lines(s: Seq<char>) -> Seq<Seq<char>>
    decreases s.len(),
{
    if s.len() == 0 {
        Seq::<Seq<char>>::empty()
    } else if s[0] == '\n' {
        seq![Seq::<char>::empty()] + split_lines(s.drop_first())
    } else {
        let rest = split_lines(s.drop_first());
        if rest.len() == 0 {
            seq![seq![s[0]]]
        } else {
            seq![seq![s[0]] + rest[0]] + rest.drop_first()
        }
    }
}

/// Splitting off a first line: if position `k` holds the first newline,
/// the first line is everything before it.
proof fn lemma_split_lines_step(s: Seq<char>, k: int)
    requires
        0 <= k < s.len(),
        s[k] == '\n',
        forall|j: int| 0 <= j < k ==> s[j] != '\n',
    ensures
        split_lines(s) == seq![s.take(k)] + split_lines(s.skip(k + 1)),
    decreases k,
{
    if k == 0 {
        assert(s.take(0) =~= Seq::<char>::empty());
        assert(s.drop_first() =~= s.skip(1));
        assert(split_lines(s) =~= seq![s.take(0)] + split_lines(s.skip(1)));
    } else {
        let t = s.drop_first();
        assert(t[k - 1] == '\n');
        assert(forall|j: int| 0 <= j < k - 1 ==> t[j] == s[j + 1] && t[j] != '\n');
        lemma_split_lines_step(t, k - 1);
        assert(t.take(k - 1) =~= s.take(k).drop_first());
        assert(t.skip(k) =~= s.skip(k + 1));
        let rest = split_lines(t);
        assert(rest == seq![s.take(k).drop_first()] + split_lines(s.skip(k + 1)));
        assert(rest.len() >= 1);
        assert(rest[0] == s.take(k).drop_first());
        assert(seq![s[0]] + rest[0] =~= s.take(k));
        assert(rest.drop_first() =~= split_lines(s.skip(k + 1)));
        assert(split_lines(s) =~= seq![s.take(k)] + split_lines(s.skip(k + 1)));
    }
}

/// A nonempty text without a newline is one line.
proof fn lemma_split_lines_whole(s: Seq<char>)
    requires
        s.len() > 0,
        forall|j: int| 0 <= j < s.len() ==> s[j] != '\n',
    ensures
        split_lines(s) == seq![s],
    decreases s.len(),
{
    let t = s.drop_first();
    if t.len() == 0 {
        assert(split_lines(t) == Seq::<Seq<char>>::empty());
        assert(seq![s[0]] =~= s);
        assert(split_lines(s) =~~= seq![s]);
    } else {
        assert(forall|j: int| 0 <= j < t.len() ==> t[j] == s[j + 1] && t[j] != '\n');
        lemma_split_lines_whole(t);
        assert(seq![s[0]] + t =~= s);
        assert(split_lines(s) =~~= seq![s]);
    }
}

/// Splits `s` into its lines.
pub fn split_lines_exec(s: &str) -> (r: Vec<String>)
    ensures
        r.deep_view() == split_lines(s@),
{
    let len = s.unicode_len();
    let mut r: Vec<String> = Vec::new();
    proof {
        assert(s@.skip(0) =~= s@);
        assert(r.deep_view() + split_lines(s@) =~~= split_lines(s@));
    }
    let mut start: usize = 0;
    while start < len
        invariant
            0 <= start <= len,
            len as nat == s@.len(),
            r.deep_view() + split_lines(s@.skip(start as int)) == split_lines(s@),
        decreases len - start,
    {
        let mut i: usize = start;
        while i < len && s.get_char(i) != '\n'
            invariant
                start <= i <= len,
                len as nat == s@.len(),
                forall|j: int| start <= j < i ==> s@[j] != '\n',
            decreases len - i,
        {
            i += 1;
        }
        let line = s.substring_char(start, i).to_owned();
        let ghost next: int = if i < len { i + 1 } else { len as int };
        proof {
            let rem = s@.skip(start as int);
            assert(rem.len() == len - start);
            if i < len {
                assert(s@[i as int] == '\n');
                assert(rem[i - start] == '\n');
                assert(forall|j: int| 0 <= j < i - start ==> rem[j] == s@[j + start] && rem[j]
                    != '\n');
                lemma_split_lines_step(rem, i - start);
                assert(rem.take(i - start) =~= s@.subrange(start as int, i as int));
                assert(rem.skip(i - start + 1) =~= s@.skip(next));
                assert(split_lines(rem) == seq![s@.subrange(start as int, i as int)]
                    + split_lines(s@.skip(next)));
            } else {
                assert(forall|j: int| 0 <= j < rem.len() ==> rem[j] == s@[j + start] && rem[j]
                    != '\n');
                lemma_split_lines_whole(rem);
                assert(rem =~= s@.subrange(start as int, i as int));
                assert(s@.skip(next).len() == 0);
                assert(split_lines(s@.skip(next)) =~~= Seq::<Seq<char>>::empty());
                assert(split_lines(rem) =~~= seq![s@.subrange(start as int, i as int)]
                    + split_lines(s@.skip(next)));
            }
        }
        let ghost old_dv = r.deep_view();
        r.push(line);
        proof {
            assert(r.deep_view() =~~= old_dv + seq![s@.subrange(start as int, i as int)]);
            assert(r.deep_view() + split_lines(s@.skip(next)) =~~= split_lines(s@));
        }
        if i < len {
            start = i + 1;
        } else {
            start = i;
        }
    }
    proof {
        assert(split_lines(s@.skip(start as int)) =~~= Seq::<Seq<char>>::empty());
        assert(r.deep_view() =~~= r.deep_view() + Seq::<Seq<char>>::empty());
    }
    r
}

/// The whitespace characters that trimming removes.
pub open spec fn is_space(c: char) -> bool {
    c == ' ' || c == '\t' || c == '\n' || c == '\r'
}

/// `s` without leading whitespace.
pub open spec fn trim_front(s: Seq<char>) -> Seq<char>
    decreases s.len(),
{
    if s.len() > 0 && is_space(s[0]) {
        trim_front(s.drop_first())
    } else {
        s
    }
}

/// `s` without trailing whitespace.
pub open spec fn trim_back(s: Seq<char>) -> Seq<char>
    decreases s.len(),
{
    if s.len() > 0 && is_space(s.last()) {
        trim_back(s.drop_last())
    } else {
        s
    }
}

/// `s` without leading and trailing whitespace.
pub open spec fn trimmed(s: Seq<char>) -> Seq<char> {
    trim_back(trim_front(s))
}

proof fn lemma_trim_front_skip(s: Seq<char>, k: int)
    requires
        0 <= k <= s.len(),
        forall|j: int| 0 <= j < k ==> is_space(s[j]),
        k < s.len() ==> !is_space(s[k]),
    ensures
        trim_front(s) == s.skip(k),
    decreases k,
{
    if k == 0 {
        assert(s.skip(0) =~= s);
    } else {
        let t = s.drop_first();
        assert(forall|j: int| 0 <= j < k - 1 ==> t[j] == s[j + 1] && is_space(t[j]));
        assert(k - 1 < t.len() ==> t[k - 1] == s[k]);
        lemma_trim_front_skip(t, k - 1);
        assert(t.skip(k - 1) =~= s.skip(k));
    }
}

proof fn lemma_trim_back_take(s: Seq<char>, k: int)
    requires
        0 <= k <= s.len(),
        forall|j: int| k <= j < s.len() ==> is_space(s[j]),
        k > 0 ==> !is_space(s[k - 1]),
    ensures
        trim_back(s) == s.take(k),
    decreases s.len() - k,
{
    if k == s.len() {
        assert(s.take(k) =~= s);
    } else {
        let t = s.drop_last();
        assert(is_space(s.last()));
        assert(forall|j: int| k <= j < t.len() ==> t[j] == s[j] && is_space(t[j]));
        lemma_trim_back_take(t, k);
        assert(t.take(k) =~= s.take(k));
    }
}

/// Removes leading and trailing whitespace.
pub fn trim_exec(s: &str) -> (r: String)
    ensures
        r@ == trimmed(s@),
{
    let len = s.unicode_len();
    let mut a: usize = 0;
    while a < len && is_space_exec(s.get_char(a))
        invariant
            0 <= a <= len,
            len as nat == s@.len(),
            forall|j: int| 0 <= j < a ==> is_space(s@[j]),
        decreases len - a,
    {
        a += 1;
    }
    proof {
        lemma_trim_front_skip(s@, a as int);
    }
    let mut b: usize = len;
    while b > a && is_space_exec(s.get_char(b - 1))
        invariant
            a <= b <= len,
            len as nat == s@.len(),
            forall|j: int| b <= j < len ==> is_space(s@[j]),
        decreases b,
    {
        b -= 1;
    }
    let r = s.substring_char(a, b).to_owned();
    proof {
        let f = s@.skip(a as int);
        assert(forall|j: int| b - a <= j < f.len() ==> f[j] == s@[j + a] && is_space(f[j]));
        if b > a {
            assert(!is_space(s@[b - 1]));
            assert(f[b - a - 1] == s@[b - 1]);
        }
        lemma_trim_back_take(f, b - a);
        assert(f.take(b - a) =~= s@.subrange(a as int, b as int));
    }
    r
}

fn is_space_exec(c: char) -> (r: bool)
    ensures
        r == is_space(c),
{
    c == ' ' || c == '\t' || c == '\n' || c == '\r'
}

/// Whether `c` is a decimal digit.
pub open spec fn is_digit(c: char) -> bool {
    c == '0' || c == '1' || c == '2' || c == '3' || c == '4' || c == '5' || c == '6' || c == '7'
        || c == '8' || c == '9'
}

/// The value of a decimal digit character.
pub open spec fn digit_val(c: char) -> nat {
    if c == '0' { 0 }
    else if c == '1' { 1 }
    else if c == '2' { 2 }
    else if c == '3' { 3 }
    else if c == '4' { 4 }
    else if c == '5' { 5 }
    else if c == '6' { 6 }
    else if c == '7' { 7 }
    else if c == '8' { 8 }
    else { 9 }
}

/// Whether every character of `s` is a decimal digit.
pub open spec fn all_digits(s: Seq<char>) -> bool {
    forall|j: int| 0 <= j < s.len() ==> is_digit(s[j])
}

/// The number the digit string denotes.
pub open spec fn dec_val(s: Seq<char>) -> nat
    decreases s.len(),
{
    if s.len() == 0 {
        0
    } else {
        dec_val(s.drop_last()) * 10 + digit_val(s.last())
    }
}

proof fn lemma_dec_val_monotone(s: Seq<char>, i: int)
    requires
        0 <= i <= s.len(),
    ensures
        dec_val(s.take(i)) <= dec_val(s),
    decreases s.len() - i,
{
    if i < s.len() {
        assert(s.take(i + 1).drop_last() =~= s.take(i));
        assert(dec_val(s.take(i)) <= dec_val(s.take(i + 1)));
        lemma_dec_val_monotone(s, i + 1);
    } else {
        assert(s.take(i) =~= s);
    }
}

fn digit_of_char(c: char) -> (r: Option<u64>)
    ensures
        r matches Some(d) ==> is_digit(c) && d == digit_val(c) && d < 10,
        r is None ==> !is_digit(c),
{
    match c {
        '0' => Some(0),
        '1' => Some(1),
        '2' => Some(2),
        '3' => Some(3),
        '4' => Some(4),
        '5' => Some(5),
        '6' => Some(6),
        '7' => Some(7),
        '8' => Some(8),
        '9' => Some(9),
        _ => None,
    }
}

/// Parses a decimal number.  `None` when `s` is empty, holds a non-digit, or
/// denotes a number that does not fit in `u64`.
pub fn parse_u64(s: &str) -> (r: Option<u64>)
    ensures
        r matches Some(v) ==> s@.len() > 0 && all_digits(s@) && v == dec_val(s@),
        r is None ==> s@.len() == 0 || !all_digits(s@) || dec_val(s@) > u64::MAX,
{
    let len = s.unicode_len();
    if len == 0 {
        return None;
    }
    let mut acc: u64 = 0;
    let mut i: usize = 0;
    while i < len
        invariant
            0 <= i <= len,
            len as nat == s@.len(),
            forall|j: int| 0 <= j < i ==> is_digit(s@[j]),
            acc == dec_val(s@.take(i as int)),
        decreases len - i,
    {
        let c = s.get_char(i);
        let d = match digit_of_char(c) {
            Some(d) => d,
            None => {
                assert(!is_digit(s@[i as int]));
                return None;
            },
        };
        proof {
            assert(s@.take(i + 1).drop_last() =~= s@.take(i as int));
        }
        if acc > (u64::MAX - d) / 10 {
            proof {
                assert(dec_val(s@.take(i + 1)) == acc * 10 + d);
                assert(acc * 10 + d > u64::MAX) by (nonlinear_arith)
                    requires
                        acc > (u64::MAX - d) / 10,
                        d < 10,
                ;
                lemma_dec_val_monotone(s@, i + 1);
            }
            return None;
        }
        assert(acc * 10 + d <= u64::MAX) by (nonlinear_arith)
            requires
                acc <= (u64::MAX - d) / 10,
                d < 10,
        ;
        acc = acc * 10 + d;
        i += 1;
    }
    proof {
        assert(s@.take(len as int) =~= s@);
    }
    Some(acc)
}

/// The stem of the file a path names: the part after the last `/`, without
/// the extension after its last `.` (a leading `.` of the name alone marks
/// no extension).
pub open spec fn stem_of(p: Seq<char>) -> Seq<char> {
    stem_of_name(after_last(p, '/'))
}

/// The file name without its extension.
pub open spec fn stem_of_name(name: Seq<char>) -> Seq<char> {
    if name.len() > 0 && has_at(name.drop_first(), '.') {
        name.take(last_at(name.drop_first(), '.') + 1)
    } else {
        name
    }
}

/// Whether `c` occurs in `s`.
pub open spec fn has_at(s: Seq<char>, c: char) -> bool {
    exists|j: int| 0 <= j < s.len() && s[j] == c
}

/// The index of the last occurrence of `c` in `s`.
pub open spec fn last_at(s: Seq<char>, c: char) -> int {
    choose|j: int| 0 <= j < s.len() && s[j] == c && (forall|k: int| j < k < s.len() ==> s[k] != c)
}

/// Everything after the last occurrence of `c`, or all of `s` if `c` is
/// absent.
pub open spec fn after_last(s: Seq<char>, c: char) -> Seq<char> {
    if has_at(s, c) {
        s.skip(last_at(s, c) + 1)
    } else {
        s
    }
}

proof fn lemma_last_at(s: Seq<char>, c: char, j: int)
    requires
        0 <= j < s.len(),
        s[j] == c,
        forall|k: int| j < k < s.len() ==> s[k] != c,
    ensures
        has_at(s, c),
        last_at(s, c) == j,
{
    assert(has_at(s, c));
    let w = last_at(s, c);
    assert(0 <= w < s.len() && s[w] == c && (forall|k: int| w < k < s.len() ==> s[k] != c));
    if w < j {
        assert(s[j] != c);
    }
    if j < w {
        assert(s[w] != c);
    }
}

/// Finds the index one past the last occurrence of `c`, or 0 if absent.
fn scan_last(s: &str, c: char) -> (r: usize)
    ensures
        r == 0 ==> !has_at(s@, c),
        r > 0 ==> r <= s@.len() && has_at(s@, c) && last_at(s@, c) == r - 1,
{
    let len = s.unicode_len();
    let mut i: usize = len;
    while i > 0
        invariant
            0 <= i <= len,
            len as nat == s@.len(),
            forall|k: int| i <= k < len ==> s@[k] != c,
        decreases i,
    {
        if s.get_char(i - 1) == c {
            proof {
                lemma_last_at(s@, c, i - 1);
            }
            return i;
        }
        i -= 1;
    }
    assert(!has_at(s@, c));
    0
}

/// With the last `.` of `name` at position `d - 1 >= 1`, the stem is
/// everything before it.
proof fn lemma_stem_with_ext(name: Seq<char>, d: int)
    requires
        name.len() > 0,
        2 <= d <= name.len(),
        name[d - 1] == '.',
        forall|k: int| d - 1 < k < name.len() ==> name[k] != '.',
    ensures
        has_at(name.drop_first(), '.'),
        name.take(last_at(name.drop_first(), '.') + 1) == name.take(d - 1),
{
    let tail = name.drop_first();
    assert(tail[d - 2] == '.');
    assert(forall|k: int| d - 2 < k < tail.len() ==> tail[k] == name[k + 1] && tail[k] != '.');
    lemma_last_at(tail, '.', d - 2);
}

/// With no `.` of `name` after its first character, the stem is the whole
/// name.
proof fn lemma_stem_without_ext(name: Seq<char>, d: int)
    requires
        name.len() > 0,
        0 <= d <= 1,
        d == 0 ==> !has_at(name, '.'),
        d == 1 ==> name[0] == '.' && (forall|k: int| 0 < k < name.len() ==> name[k] != '.'),
    ensures
        !has_at(name.drop_first(), '.'),
{
    let tail = name.drop_first();
    assert_by_contradiction!(!has_at(tail, '.'), {
        let j = last_at(tail, '.');
        assert(0 <= j < tail.len() && tail[j] == '.');
        assert(name[j + 1] == '.');
    });
}

/// The component of the path after its last `/`.
fn last_component<'a>(p: &'a str) -> (r: &'a str)
    ensures
        r@ == after_last(p@, '/'),
{
    let len = p.unicode_len();
    let cut = scan_last(p, '/');
    let name = p.substring_char(cut, len);
    proof {
        assert(name@ =~= after_last(p@, '/'));
    }
    name
}

/// The file name without the extension after its last `.`.
fn strip_extension(name: &str) -> (r: String)
    ensures
        r@ == stem_of_name(name@),
{
    let name_len = name.unicode_len();
    if name_len == 0 {
        return name.to_owned();
    }
    let dot = scan_last(name, '.');
    if dot >= 2 {
        let r = name.substring_char(0, dot - 1).to_owned();
        proof {
            lemma_last_at_props(name@, '.');
            lemma_stem_with_ext(name@, dot as int);
            assert(stem_of_name(name@) == name@.take(dot - 1));
            assert(r@ =~= name@.take(dot - 1));
        }
        r
    } else {
        proof {
            if dot == 1 {
                lemma_last_at_props(name@, '.');
            }
            lemma_stem_without_ext(name@, dot as int);
            assert(stem_of_name(name@) == name@);
        }
        name.to_owned()
    }
}

/// What the chosen index of `last_at` satisfies, whenever `c` occurs at all.
proof fn lemma_last_at_props(s: Seq<char>, c: char)
    requires
        has_at(s, c),
    ensures
        0 <= last_at(s, c) < s.len(),
        s[last_at(s, c)] == c,
        forall|k: int| last_at(s, c) < k < s.len() ==> s[k] != c,
{
    let j = choose|j: int| 0 <= j < s.len() && s[j] == c;
    lemma_last_at_ge(s, c, j);
}

/// The file stem of the path: its last component without the extension.
pub fn file_stem(p: &str) -> (r: String)
    ensures
        r@ == stem_of(p@),
{
    let name = last_component(p);
    strip_extension(name)
}

/// The last occurrence of `c` is no earlier than any occurrence.
proof fn lemma_last_at_ge(s: Seq<char>, c: char, j: int)
    requires
        0 <= j < s.len(),
        s[j] == c,
    ensures
        has_at(s, c),
        last_at(s, c) >= j,
        0 <= last_at(s, c) < s.len(),
        s[last_at(s, c)] == c,
        forall|k: int| last_at(s, c) < k < s.len() ==> s[k] != c,
    decreases s.len() - j,
{
    assert(has_at(s, c));
    if exists|k: int| j < k < s.len() && s[k] == c {
        let k = choose|k: int| j < k < s.len() && s[k] == c;
        lemma_last_at_ge(s, c, k);
    } else {
        lemma_last_at(s, c, j);
    }
}

/// Whether the string sequence `parts` holds `s`.
pub open spec fn seq_has(parts: Seq<Seq<char>>, s: Seq<char>) -> bool {
    exists|j: int| 0 <= j < parts.len() && parts[j] == s
}

/// Whether the vector holds a string whose characters equal `s`.
pub fn vec_has_string(parts: &Vec<String>, s: &str) -> (r: bool)
    ensures
        r == seq_has(parts.deep_view(), s@),
{
    let mut i: usize = 0;
    while i < parts.len()
        invariant
            0 <= i <= parts.len(),
            forall|j: int| 0 <= j < i ==> parts.deep_view()[j] != s@,
        decreases parts.len() - i,
    {
        if str_eq(parts[i].as_str(), s) {
            proof {
                assert(parts.deep_view()[i as int] == s@);
            }
            return true;
        }
        proof {
            assert(parts.deep_view()[i as int] == parts@[i as int]@);
        }
        i += 1;
    }
    false
}

/// `parts` with later duplicates removed: the first occurrence of each
/// string is kept, in order.
pub open spec fn dedup_first(parts: Seq<Seq<char>>) -> Seq<Seq<char>>
    decreases parts.len(),
{
    if parts.len() == 0 {
        Seq::<Seq<char>>::empty()
    } else {
        let front = dedup_first(parts.drop_last());
        if seq_has(front, parts.last()) {
            front
        } else {
            front + seq![parts.last()]
        }
    }
}

/// Removes duplicates, keeping first occurrences in order.
pub fn dedup_strings(parts: &Vec<String>) -> (r: Vec<String>)
    ensures
        r.deep_view() == dedup_first(parts.deep_view()),
{
    let mut r: Vec<String> = Vec::new();
    let mut i: usize = 0;
    while i < parts.len()
        invariant
            0 <= i <= parts.len(),
            r.deep_view() == dedup_first(parts.deep_view().take(i as int)),
        decreases parts.len() - i,
    {
        proof {
            let dv = parts.deep_view();
            assert(dv.take(i + 1).drop_last() =~= dv.take(i as int));
            assert(dv.take(i + 1).last() == dv[i as int]);
            assert(dv[i as int] == parts@[i as int]@);
        }
        if !vec_has_string(&r, parts[i].as_str()) {
            let ghost old_dv = r.deep_view();
            r.push(parts[i].clone());
            proof {
                assert(r.deep_view() =~= old_dv + seq![parts@[i as int]@]);
            }
        }
        i += 1;
    }
    proof {
        assert(parts.deep_view().take(parts.len() as int) =~= parts.deep_view());
    }
    r
}

} // verus!
