use vstd::prelude::*;

verus! {

/// Appends one character to a string (std `String::push`).
/// Trusted: the documentation of `String::push` says it appends `c` to the end.
#[verifier::external_body]
pub(crate) fn push_char(s: &mut String, c: char)
    ensures
        final(s)@ == old(s)@.push(c),
{
    s.push(c);
}

/// The text that `{:?}` gives for a list of strings: the standard library's
/// `Debug` rendering of a `Vec<String>`.
pub uninterp spec fn debug_list(items: Seq<Seq<char>>) -> Seq<char>;

/// Renders a list of strings with `{:?}` (the `Debug` impl of `Vec<String>`).
/// Trusted: the result is named `debug_list` of the strings and depends on
/// nothing else.
#[verifier::external_body]
pub(crate) fn debug_text(items: &Vec<String>) -> (s: String)
    ensures
        s@ == debug_list(items.deep_view()),
{
    format!("{:?}", items)
}

/// The characters of a string slice, in order.
pub fn chars_of(s: &str) -> (r: Vec<char>)
    ensures
        r@ == s@,
{
    let mut r: Vec<char> = Vec::new();
    for c in it: s.chars()
        invariant
            r@ == it.seq().take(it.index() as int),
    {
        r.push(c);
    }
    r
}

} // verus!

verus! {

/// A string holding the given characters.
pub fn string_of(cs: &Vec<char>) -> (r: String)
    ensures
        r@ == cs@,
{
    let mut r = String::new();
    let n = cs.len();
    for i in 0..n
        invariant
            n == cs@.len(),
            r@ == cs@.take(i as int),
    {
        push_char(&mut r, cs[i]);
        assert(cs@.take(i + 1) =~= cs@.take(i as int).push(cs@[i as int]));
    }
    assert(cs@.take(n as int) =~= cs@);
    r
}

/// The pieces of `s` between occurrences of `sep`, as `str::split` with a
/// `char` pattern yields them: `k` separators give `k + 1` pieces, empty ones
/// included.
pub open spec fn split_spec(s: Seq<char>, sep: char) -> Seq<Seq<char>>
    decreases s.len(),
{
    if s.len() == 0 {
        seq![Seq::<char>::empty()]
    } else {
        let p = split_spec(s.drop_last(), sep);
        if s.last() == sep {
            p.push(Seq::<char>::empty())
        } else {
            p.update(p.len() - 1, p.last().push(s.last()))
        }
    }
}

pub proof fn lemma_split_nonempty(s: Seq<char>, sep: char)
    ensures
        split_spec(s, sep).len() >= 1,
    decreases s.len(),
{
    if s.len() > 0 {
        lemma_split_nonempty(s.drop_last(), sep);
    }
}

/// Splits a character sequence on `sep` (see `split_spec`).
pub fn split_chars(cs: &Vec<char>, sep: char) -> (r: Vec<String>)
    ensures
        r.deep_view() == split_spec(cs@, sep),
{
    let mut pieces: Vec<String> = Vec::new();
    let mut cur = String::new();
    let n = cs.len();
    for i in 0..n
        invariant
            n == cs@.len(),
            pieces.deep_view().push(cur@) == split_spec(cs@.take(i as int), sep),
    {
        let ghost pre = cs@.take(i as int);
        assert(cs@.take(i + 1).drop_last() =~= pre);
        proof {
            lemma_split_nonempty(pre, sep);
        }
        let c = cs[i];
        if c == sep {
            let ghost old_pieces = pieces.deep_view();
            pieces.push(cur);
            cur = String::new();
            assert(pieces.deep_view() =~= old_pieces.push(pieces@[pieces@.len() - 1]@));
            assert(pieces.deep_view().push(cur@) =~= split_spec(cs@.take(i + 1), sep));
        } else {
            let ghost old_pieces = pieces.deep_view();
            push_char(&mut cur, c);
            assert(pieces.deep_view() =~= old_pieces);
            assert(pieces.deep_view().push(cur@) =~= split_spec(cs@.take(i + 1), sep));
        }
    }
    assert(cs@.take(n as int) =~= cs@);
    let ghost old_pieces = pieces.deep_view();
    pieces.push(cur);
    assert(pieces.deep_view() =~= old_pieces.push(pieces@[pieces@.len() - 1]@));
    pieces
}

/// Splits a string on `sep` (see `split_spec`).
pub fn split_str(s: &str, sep: char) -> (r: Vec<String>)
    ensures
        r.deep_view() == split_spec(s@, sep),
{
    let cs = chars_of(s);
    split_chars(&cs, sep)
}

/// A line without its trailing carriage return, if it has one.
pub open spec fn strip_cr(l: Seq<char>) -> Seq<char> {
    if l.len() > 0 && l.last() == '\r' {
        l.drop_last()
    } else {
        l
    }
}

/// The lines of a text as `BufRead::lines` yields them: split on `'\n'`, no
/// final empty line after a trailing newline, and a trailing `'\r'` removed
/// from each line.
pub open spec fn lines_spec(s: Seq<char>) -> Seq<Seq<char>> {
    let p = split_spec(s, '\n');
    let q = if p.last().len() == 0 {
        p.drop_last()
    } else {
        p
    };
    Seq::new(q.len(), |i: int| strip_cr(q[i]))
}

/// The lines of a text (see `lines_spec`).
pub fn lines_of(s: &str) -> (r: Vec<String>)
    ensures
        r.deep_view() == lines_spec(s@),
{
    let cs = chars_of(s);
    let p = split_chars(&cs, '\n');
    proof {
        lemma_split_nonempty(s@, '\n');
    }
    let mut n = p.len();
    if p[n - 1].as_str().unicode_len() == 0 {
        n = n - 1;
    }
    let ghost q = if p.deep_view().last().len() == 0 {
        p.deep_view().drop_last()
    } else {
        p.deep_view()
    };
    assert(q.len() == n);
    let mut r: Vec<String> = Vec::new();
    for i in 0..n
        invariant
            n == q.len(),
            q.len() <= p@.len(),
            forall|j: int| 0 <= j < q.len() ==> q[j] == p@[j]@,
            r.deep_view() == Seq::new(i as nat, |j: int| strip_cr(q[j])),
    {
        let lc = chars_of(p[i].as_str());
        let m = lc.len();
        let ghost old_r = r.deep_view();
        if m > 0 && lc[m - 1] == '\r' {
            let mut line: Vec<char> = Vec::new();
            for j in 0..m - 1
                invariant
                    m == lc@.len(),
                    m > 0,
                    line@ == lc@.take(j as int),
            {
                line.push(lc[j]);
                assert(lc@.take(j + 1) =~= lc@.take(j as int).push(lc@[j as int]));
            }
            assert(lc@.take(m - 1) =~= lc@.drop_last());
            r.push(string_of(&line));
        } else {
            r.push(string_of(&lc));
        }
        assert(lc@ == q[i as int]);
        assert(r.deep_view() =~= old_r.push(strip_cr(q[i as int])));
        assert(r.deep_view() =~= Seq::new((i + 1) as nat, |j: int| strip_cr(q[j])));
    }
    assert(Seq::new(n as nat, |j: int| strip_cr(q[j])) =~= lines_spec(s@));
    r
}

/// Whether a list of strings holds `s`.
pub fn contains_string(v: &Vec<String>, s: &String) -> (r: bool)
    ensures
        r == v.deep_view().contains(s@),
{
    let n = v.len();
    for i in 0..n
        invariant
            n == v@.len(),
            forall|j: int| 0 <= j < i ==> v@[j]@ != s@,
    {
        if v[i] == *s {
            assert(v.deep_view()[i as int] == s@);
            return true;
        }
    }
    assert(!v.deep_view().contains(s@)) by {
        if v.deep_view().contains(s@) {
            let j = choose|j: int| 0 <= j < v.deep_view().len() && v.deep_view()[j] == s@;
            assert(v@[j]@ == s@);
        }
    }
    false
}

/// A string built from a string slice.
pub fn owned(s: &str) -> (r: String)
    ensures
        r@ == s@,
{
    let cs = chars_of(s);
    string_of(&cs)
}

/// The decimal digit character for `d < 10`.
pub open spec fn digit_char(d: nat) -> char {
    if d == 0 { '0' } else if d == 1 { '1' } else if d == 2 { '2' } else if d == 3 { '3' }
    else if d == 4 { '4' } else if d == 5 { '5' } else if d == 6 { '6' } else if d == 7 { '7' }
    else if d == 8 { '8' } else { '9' }
}

/// The decimal representation of `n`, without leading zeros.
pub open spec fn decimal(n: nat) -> Seq<char>
    decreases n,
{
    if n < 10 {
        seq![digit_char(n)]
    } else {
        decimal(n / 10).push(digit_char(n % 10))
    }
}

fn digit_of(d: usize) -> (c: char)
    requires
        d < 10,
    ensures
        c == digit_char(d as nat),
{
    if d == 0 { '0' } else if d == 1 { '1' } else if d == 2 { '2' } else if d == 3 { '3' }
    else if d == 4 { '4' } else if d == 5 { '5' } else if d == 6 { '6' } else if d == 7 { '7' }
    else if d == 8 { '8' } else { '9' }
}

/// The decimal representation of `n`, as `usize::to_string` gives it.
pub fn decimal_string(n: usize) -> (r: String)
    ensures
        r@ == decimal(n as nat),
    decreases n,
{
    if n < 10 {
        let mut r = String::new();
        push_char(&mut r, digit_of(n));
        assert(r@ =~= seq![digit_char(n as nat)]);
        r
    } else {
        let mut r = decimal_string(n / 10);
        push_char(&mut r, digit_of(n % 10));
        r
    }
}

/// The value of a sequence of decimal digits.
pub open spec fn digit_value(c: char) -> int {
    c as int - '0' as int
}

pub open spec fn is_digit(c: char) -> bool {
    '0' <= c && c <= '9'
}

pub open spec fn digits_value(ds: Seq<char>) -> int
    decreases ds.len(),
{
    if ds.len() == 0 {
        0
    } else {
        digits_value(ds.drop_last()) * 10 + digit_value(ds.last())
    }
}

pub open spec fn all_digits(ds: Seq<char>) -> bool {
    forall|i: int| 0 <= i < ds.len() ==> is_digit(#[trigger] ds[i])
}

/// The digits after an optional leading `'+'`.
pub open spec fn unsigned_body(s: Seq<char>) -> Seq<char> {
    if s.len() > 0 && s[0] == '+' {
        s.drop_first()
    } else {
        s
    }
}

/// What `str::parse::<usize>` gives: an optional leading `'+'`, then one or
/// more decimal digits whose value fits in a `usize`.
pub open spec fn parse_usize_spec(s: Seq<char>) -> Option<usize> {
    let body = unsigned_body(s);
    if body.len() > 0 && all_digits(body) && digits_value(body) <= usize::MAX {
        Some(digits_value(body) as usize)
    } else {
        None
    }
}

proof fn lemma_digits_value_grows(ds: Seq<char>, c: char)
    requires
        is_digit(c),
        forall|i: int| 0 <= i < ds.len() ==> is_digit(#[trigger] ds[i]),
    ensures
        digits_value(ds.push(c)) >= digits_value(ds),
        digits_value(ds) >= 0,
    decreases ds.len(),
{
    assert(ds.push(c).drop_last() =~= ds);
    if ds.len() > 0 {
        lemma_digits_value_grows(ds.drop_last(), ds.last());
        assert(ds.drop_last().push(ds.last()) =~= ds);
    }
}

/// Parses a decimal `usize` (see `parse_usize_spec`).
pub fn parse_usize(s: &String) -> (r: Option<usize>)
    ensures
        r == parse_usize_spec(s@),
{
    let cs = chars_of(s.as_str());
    let n = cs.len();
    let start: usize = if n > 0 && cs[0] == '+' { 1 } else { 0 };
    let ghost body = unsigned_body(s@);
    assert(body =~= cs@.subrange(start as int, n as int));
    if start >= n {
        return None;
    }
    let mut acc: usize = 0;
    let mut i = start;
    while i < n
        invariant
            start <= i <= n,
            n == cs@.len(),
            body == cs@.subrange(start as int, n as int),
            body == unsigned_body(s@),
            forall|j: int| 0 <= j < i - start ==> is_digit(#[trigger] body[j]),
            acc == digits_value(body.take(i - start)),
        decreases n - i,
    {
        let c = cs[i];
        if !('0' <= c && c <= '9') {
            assert(body[i - start] == c);
            assert(!is_digit(body[i - start]));
            assert(parse_usize_spec_body_fails(body));
            assert(unsigned_body(s@) == body);
            assert(!all_digits(body));
            assert(parse_usize_spec(s@) is None);
            return None;
        }
        let d = (c as u32 - '0' as u32) as usize;
        let ghost pre = body.take(i - start);
        assert(body.take(i - start + 1) =~= pre.push(c));
        assert(body.take(i - start + 1).drop_last() =~= pre);
        proof {
            lemma_digits_value_grows(pre, c);
            assert(body[i - start] == c);
            assert forall|j: int| 0 <= j < i - start + 1 implies is_digit(#[trigger] body[j]) by {
                if j == i - start {
                } else {
                }
            }
            assert(digits_value(pre.push(c)) == acc * 10 + d);
        }
        match acc.checked_mul(10) {
            Some(m) => match m.checked_add(d) {
                Some(v) => {
                    acc = v;
                },
                None => {
                    proof { lemma_digits_rest_too_big(body, (i - start + 1) as int); }
                    assert(parse_usize_spec(s@) is None);
                    return None;
                },
            },
            None => {
                proof { lemma_digits_rest_too_big(body, (i - start + 1) as int); }
                assert(parse_usize_spec(s@) is None);
                return None;
            },
        }
        i = i + 1;
    }
    assert(body.take(n - start) =~= body);
    Some(acc)
}

/// Once a prefix of digits is too big for a `usize`, so is the whole.
proof fn lemma_digits_rest_too_big(body: Seq<char>, k: int)
    requires
        0 < k <= body.len(),
        forall|j: int| 0 <= j < k ==> is_digit(#[trigger] body[j]),
        digits_value(body.take(k)) > usize::MAX,
    ensures
        parse_usize_spec_body_fails(body),
    decreases body.len() - k,
{
    if k < body.len() {
        if forall|j: int| 0 <= j < k + 1 ==> is_digit(#[trigger] body[j]) {
            assert(body.take(k + 1) =~= body.take(k).push(body[k]));
            assert(body.take(k + 1).drop_last() =~= body.take(k));
            lemma_digits_value_grows(body.take(k), body[k]);
            lemma_digits_rest_too_big(body, k + 1);
        }
    } else {
        assert(body.take(k) =~= body);
    }
}

/// A digit body that does not give a `usize`.
pub open spec fn parse_usize_spec_body_fails(body: Seq<char>) -> bool {
    !(all_digits(body) && digits_value(body) <= usize::MAX)
}

} // verus!

verus! {

/// A copy of a list of strings.
pub fn clone_strings(v: &Vec<String>) -> (r: Vec<String>)
    ensures
        r.deep_view() == v.deep_view(),
{
    let mut r: Vec<String> = Vec::new();
    let n = v.len();
    for i in 0..n
        invariant
            n == v@.len(),
            r.deep_view() == v.deep_view().take(i as int),
    {
        let x = v[i].clone();
        let ghost old_r = r.deep_view();
        r.push(x);
        assert(r.deep_view() =~= old_r.push(v@[i as int]@));
        assert(r.deep_view() =~= v.deep_view().take(i + 1));
    }
    assert(v.deep_view().take(n as int) =~= v.deep_view());
    r
}

/// A copy of a list of lists of strings.
pub fn clone_string_lists(v: &Vec<Vec<String>>) -> (r: Vec<Vec<String>>)
    ensures
        r.deep_view() == v.deep_view(),
{
    let mut r: Vec<Vec<String>> = Vec::new();
    let n = v.len();
    for i in 0..n
        invariant
            n == v@.len(),
            r.deep_view() == v.deep_view().take(i as int),
    {
        let x = clone_strings(&v[i]);
        let ghost old_r = r.deep_view();
        r.push(x);
        assert(r.deep_view() =~= old_r.push(v@[i as int].deep_view()));
        assert(r.deep_view() =~= v.deep_view().take(i + 1));
    }
    assert(v.deep_view().take(n as int) =~= v.deep_view());
    r
}

} // verus!

verus! {

/// `l` is `l0` followed by symbols that occur once and not in `l0`.
pub open spec fn appended_new(l0: Seq<Seq<char>>, l: Seq<Seq<char>>) -> bool {
    &&& l0.len() <= l.len()
    &&& l.take(l0.len() as int) == l0
    &&& l.skip(l0.len() as int).no_duplicates()
    &&& forall|x: Seq<char>| #[trigger] l.skip(l0.len() as int).contains(x) ==> !l0.contains(x)
}

/// Appending a symbol that the list lacks keeps the appended part new.
pub proof fn lemma_appended_push(l0: Seq<Seq<char>>, l: Seq<Seq<char>>, x: Seq<char>)
    requires
        appended_new(l0, l),
        !l.contains(x),
    ensures
        appended_new(l0, l.push(x)),
{
    let k = l0.len() as int;
    let l2 = l.push(x);
    assert(l2.take(k) =~= l.take(k));
    assert(l2.skip(k) =~= l.skip(k).push(x));
    assert(!l.skip(k).contains(x)) by {
        if l.skip(k).contains(x) {
            let j = choose|j: int| 0 <= j < l.skip(k).len() && l.skip(k)[j] == x;
            assert(l[k + j] == x);
        }
    }
    assert(!l0.contains(x)) by {
        if l0.contains(x) {
            let j = choose|j: int| 0 <= j < l0.len() && l0[j] == x;
            assert(l.take(k)[j] == x);
            assert(l[j] == x);
        }
    }
    assert forall|y: Seq<char>| #[trigger] l2.skip(k).contains(y) implies !l0.contains(y) by {
        if y != x {
            let j = choose|j: int| 0 <= j < l2.skip(k).len() && l2.skip(k)[j] == y;
            assert(l.skip(k)[j] == y);
            assert(l.skip(k).contains(y));
        }
    }
}

/// A list without repeats, extended by new distinct symbols, has no repeats.
pub proof fn lemma_appended_distinct(l0: Seq<Seq<char>>, l: Seq<Seq<char>>)
    requires
        appended_new(l0, l),
        l0.no_duplicates(),
    ensures
        l.no_duplicates(),
{
    let k = l0.len() as int;
    assert forall|a: int, b: int| 0 <= a < l.len() && 0 <= b < l.len() && a != b implies l[a] != l[b] by {
        if a < k && b < k {
            assert(l.take(k)[a] == l0[a]);
            assert(l.take(k)[b] == l0[b]);
        } else if a >= k && b >= k {
            assert(l.skip(k)[a - k] == l[a]);
            assert(l.skip(k)[b - k] == l[b]);
        } else if a < k {
            assert(l.take(k)[a] == l0[a]);
            assert(l.skip(k)[b - k] == l[b]);
            assert(l.skip(k).contains(l[b]));
        } else {
            assert(l.take(k)[b] == l0[b]);
            assert(l.skip(k)[a - k] == l[a]);
            assert(l.skip(k).contains(l[a]));
        }
    }
}

/// Appends to `f` each element of `src` that `f` lacks (leaving out `"nil"`
/// when `skip_nil`), in the order of `src`; says whether any was appended.
pub fn add_missing(f: &mut Vec<String>, src: &Vec<String>, skip_nil: bool) -> (added: bool)
    ensures
        final(f).deep_view().len() >= old(f).deep_view().len(),
        final(f).deep_view().take(old(f).deep_view().len() as int) == old(f).deep_view(),
        forall|x: Seq<char>|
            #[trigger] final(f).deep_view().contains(x) <==> (old(f).deep_view().contains(x) || (
            src.deep_view().contains(x) && !(skip_nil && x == "nil"@))),
        added <==> exists|x: Seq<char>|
            #[trigger] final(f).deep_view().contains(x) && !old(f).deep_view().contains(x),
        !added ==> final(f).deep_view() == old(f).deep_view(),
        appended_new(old(f).deep_view(), final(f).deep_view()),
{
    let ghost f0 = f.deep_view();
    assert(f0.take(f0.len() as int) =~= f0);
    assert(f0.skip(f0.len() as int) =~= Seq::<Seq<char>>::empty());
    let nil = owned("nil");
    let mut added = false;
    let n = src.len();
    for k in 0..n
        invariant
            n == src@.len(),
            nil@ == "nil"@,
            f.deep_view().len() >= f0.len(),
            f.deep_view().take(f0.len() as int) == f0,
            forall|x: Seq<char>|
                #[trigger] f.deep_view().contains(x) <==> (f0.contains(x) || (
                src.deep_view().take(k as int).contains(x) && !(skip_nil && x == "nil"@))),
            added <==> exists|x: Seq<char>| #[trigger] f.deep_view().contains(x) && !f0.contains(x),
            !added ==> f.deep_view() == f0,
            appended_new(f0, f.deep_view()),
    {
        let ghost x = src@[k as int]@;
        let ghost before = f.deep_view();
        let ghost s1 = src.deep_view().take(k + 1);
        let ghost s0 = src.deep_view().take(k as int);
        assert(s1 =~= s0.push(x));
        let skip = skip_nil && src[k] == nil;
        if !contains_string(f, &src[k]) && !skip {
            f.push(src[k].clone());
            assert(f.deep_view() =~= before.push(x));
            proof {
                lemma_appended_push(f0, before, x);
            }
            assert(f.deep_view().take(f0.len() as int) =~= before.take(f0.len() as int));
            added = true;
            assert(f.deep_view().contains(x) && !f0.contains(x)) by {
                assert(f.deep_view()[before.len() as int] == x);
            }
            assert forall|y: Seq<char>| #[trigger] f.deep_view().contains(y) <==> (f0.contains(y) || (
                s1.contains(y) && !(skip_nil && y == "nil"@))) by {
                assert(before.contains(y) <==> (f0.contains(y) || (s0.contains(y) && !(skip_nil && y == "nil"@))));
                assert(!(skip_nil && x == "nil"@));
                if f.deep_view().contains(y) && y != x {
                    let j = choose|j: int| 0 <= j < f.deep_view().len() && f.deep_view()[j] == y;
                    assert(before[j] == y);
                }
                if y == x {
                    assert(f.deep_view()[before.len() as int] == x);
                    assert(s1[k as int] == x);
                }
                if before.contains(y) {
                    let j = choose|j: int| 0 <= j < before.len() && before[j] == y;
                    assert(f.deep_view()[j] == y);
                }
                if s0.contains(y) {
                    let j = choose|j: int| 0 <= j < s0.len() && s0[j] == y;
                    assert(s1[j] == y);
                }
                if s1.contains(y) && y != x {
                    let j = choose|j: int| 0 <= j < s1.len() && s1[j] == y;
                    assert(s0[j] == y);
                }
            }
        } else {
            assert forall|y: Seq<char>| #[trigger] f.deep_view().contains(y) <==> (f0.contains(y) || (
                s1.contains(y) && !(skip_nil && y == "nil"@))) by {
                if s0.contains(y) {
                    let j = choose|j: int| 0 <= j < s0.len() && s0[j] == y;
                    assert(s1[j] == y);
                }
                if s1.contains(y) && y != x {
                    let j = choose|j: int| 0 <= j < s1.len() && s1[j] == y;
                    assert(s0[j] == y);
                }
            }
        }
    }
    assert(src.deep_view().take(n as int) =~= src.deep_view());
    added
}

} // verus!

verus! {

proof fn lemma_digit_char(d: nat)
    requires
        d < 10,
    ensures
        is_digit(digit_char(d)),
        digit_value(digit_char(d)) == d,
{
}

proof fn lemma_decimal_digits(n: nat)
    ensures
        decimal(n).len() > 0,
        decimal(n)[0] != '+',
        all_digits(decimal(n)),
        digits_value(decimal(n)) == n,
    decreases n,
{
    if n < 10 {
        lemma_digit_char(n);
        assert(decimal(n) =~= seq![digit_char(n)]);
        assert(seq![digit_char(n)].drop_last() =~= Seq::<char>::empty());
        assert(digits_value(decimal(n)) == digits_value(Seq::<char>::empty()) * 10 + digit_value(digit_char(n)));
    } else {
        lemma_decimal_digits(n / 10);
        lemma_digit_char(n % 10);
        let p = decimal(n / 10);
        assert(decimal(n) == p.push(digit_char(n % 10)));
        assert(p.push(digit_char(n % 10)).drop_last() =~= p);
        assert(decimal(n).last() == digit_char(n % 10));
        assert(digits_value(decimal(n)) == digits_value(p) * 10 + digit_value(digit_char(n % 10)));
        assert((n / 10) * 10 + n % 10 == n) by (nonlinear_arith);
        assert(decimal(n)[0] == p[0]);
        assert forall|i: int| 0 <= i < decimal(n).len() implies is_digit(#[trigger] decimal(n)[i]) by {
            if i < p.len() {
                assert(decimal(n)[i] == p[i]);
            }
        }
    }
}

/// Parsing the decimal text of a number gives the number back: what
/// `decimal_string` writes, `parse_usize` reads.
pub proof fn lemma_decimal_parses(n: usize)
    ensures
        parse_usize_spec(decimal(n as nat)) == Some(n),
{
    lemma_decimal_digits(n as nat);
}

} // verus!
