//! Text helpers with their contracts.
use vstd::prelude::*;
use vstd::string::*;

verus! {

/// Whether two strings hold the same characters.
pub fn str_eq(a: &str, b: &str) -> (r: bool)
    ensures
        r == (a@ == b@),
{
    let n = a.unicode_len();
    if n != b.unicode_len() {
        return false;
    }
    let mut i: usize = 0;
    while i < n
        invariant
            n == a@.len(),
            n == b@.len(),
            0 <= i <= n,
            forall|k: int| 0 <= k < i ==> a@[k] == b@[k],
        decreases n - i,
    {
        if a.get_char(i) != b.get_char(i) {
            return false;
        }
        i = i + 1;
    }
    assert(a@ =~= b@);
    true
}

/// The first position of `c` in `s`, if any.
pub open spec fn first_index(s: Seq<char>, c: char) -> Option<int> {
    if s.contains(c) {
        Some(choose|i: int| 0 <= i < s.len() && s[i] == c && forall|k: int| 0 <= k < i ==> s[k] != c)
    } else {
        None
    }
}

proof fn lemma_first_exists(s: Seq<char>, c: char)
    requires
        s.contains(c),
    ensures
        exists|i: int| 0 <= i < s.len() && s[i] == c && forall|k: int| 0 <= k < i ==> s[k] != c,
    decreases s.len(),
{
    if s[0] != c {
        let t = s.drop_first();
        let j = choose|j: int| 0 <= j < s.len() && s[j] == c;
        assert(t[j - 1] == c);
        lemma_first_exists(t, c);
        let i = choose|i: int| 0 <= i < t.len() && t[i] == c && forall|k: int| 0 <= k < i ==> t[k] != c;
        assert(s[i + 1] == c);
        assert forall|k: int| 0 <= k < i + 1 implies s[k] != c by {
            if k > 0 {
                assert(s[k] == t[k - 1]);
            }
        }
    } else {
        assert(s[0] == c);
    }
}

/// What the first position of `c` in `s` is.
pub proof fn lemma_first_index(s: Seq<char>, c: char)
    ensures
        match first_index(s, c) {
            Some(i) => 0 <= i < s.len() && s[i] == c && forall|k: int| 0 <= k < i ==> s[k] != c,
            None => !s.contains(c),
        },
{
    if s.contains(c) {
        lemma_first_exists(s, c);
    }
}

/// The position of the first `c` in `s`, if any.
pub fn find_char(s: &str, c: char) -> (r: Option<usize>)
    ensures
        match r {
            Some(i) => i < s@.len() && s@[i as int] == c && forall|k: int| 0 <= k < i ==> s@[k] != c,
            None => !s@.contains(c),
        },
{
    let n = s.unicode_len();
    let mut i: usize = 0;
    while i < n
        invariant
            n == s@.len(),
            0 <= i <= n,
            forall|k: int| 0 <= k < i ==> s@[k] != c,
        decreases n - i,
    {
        if s.get_char(i) == c {
            return Some(i);
        }
        i = i + 1;
    }
    None
}

/// Splits `s` around the first `c`, as `str::split_once` does.
pub open spec fn spec_split_once(s: Seq<char>, c: char) -> Option<(Seq<char>, Seq<char>)> {
    match first_index(s, c) {
        Some(i) => Some((s.subrange(0, i), s.subrange(i + 1, s.len() as int))),
        None => None,
    }
}

pub fn split_once(s: &str, c: char) -> (r: Option<(&str, &str)>)
    ensures
        match (r, spec_split_once(s@, c)) {
            (Some((a, b)), Some((x, y))) => a@ == x && b@ == y,
            (None, None) => true,
            _ => false,
        },
{
    match find_char(s, c) {
        None => None,
        Some(i) => {
            proof {
                let j = first_index(s@, c)->0;
                assert(s@.contains(c));
                if j < i {
                } else if i < j {
                }
                assert(j == i);
            }
            let n = s.unicode_len();
            Some((s.substring_char(0, i), s.substring_char(i + 1, n)))
        },
    }
}

/// A fresh `String` holding the characters of `s`.
pub fn to_owned(s: &str) -> (r: String)
    ensures
        r@ == s@,
{
    String::from_str(s)
}

} // verus!

verus! {

/// Splitting `p + [c] + r` around its first `c`, when `p` holds no `c`,
/// gives back `p` and `r`.
pub proof fn lemma_split_once_join(p: Seq<char>, c: char, r: Seq<char>)
    requires
        !p.contains(c),
    ensures
        spec_split_once(p + seq![c] + r, c) == Some((p, r)),
{
    let s = p + seq![c] + r;
    assert(s[p.len() as int] == c);
    assert(s.contains(c));
    let i = first_index(s, c)->0;
    assert(forall|k: int| 0 <= k < p.len() ==> s[k] == p[k]);
    if i < p.len() {
        assert(p.contains(p[i]));
    }
    assert(i == p.len());
    assert(s.subrange(0, i) =~= p);
    assert(s.subrange(i + 1, s.len() as int) =~= r);
}

} // verus!

verus! {

/// The last position of `c` in `s`, if any.
pub open spec fn last_index(s: Seq<char>, c: char) -> Option<int> {
    if s.contains(c) {
        Some(choose|i: int| 0 <= i < s.len() && s[i] == c && forall|k: int| i < k < s.len() ==> s[k] != c)
    } else {
        None
    }
}

/// Splits `s` around its last `c`, as `str::rsplit_once` does.
pub open spec fn spec_rsplit_once(s: Seq<char>, c: char) -> Option<(Seq<char>, Seq<char>)> {
    match last_index(s, c) {
        Some(i) => Some((s.subrange(0, i), s.subrange(i + 1, s.len() as int))),
        None => None,
    }
}

pub fn rsplit_once(s: &str, c: char) -> (r: Option<(&str, &str)>)
    ensures
        match (r, spec_rsplit_once(s@, c)) {
            (Some((a, b)), Some((x, y))) => a@ == x && b@ == y,
            (None, None) => true,
            _ => false,
        },
{
    let n = s.unicode_len();
    let mut i: usize = n;
    while i > 0
        invariant
            n == s@.len(),
            0 <= i <= n,
            forall|k: int| i <= k < n ==> s@[k] != c,
        decreases i,
    {
        if s.get_char(i - 1) == c {
            proof {
                let j = last_index(s@, c)->0;
                assert(s@.contains(c));
                if j < i - 1 {
                } else if i - 1 < j {
                }
                assert(j == i - 1);
            }
            return Some((s.substring_char(0, i - 1), s.substring_char(i, n)));
        }
        i = i - 1;
    }
    proof {
        if s@.contains(c) {
            let k = choose|k: int| 0 <= k < s@.len() && s@[k] == c;
        }
    }
    None
}

/// The parts of `s` separated by `c`, as `str::split` gives them: there is
/// always at least one part, and parts may be empty.
#[verifier::opaque]
pub open spec fn spec_split(s: Seq<char>, c: char) -> Seq<Seq<char>>
    decreases s.len(),
{
    match first_index(s, c) {
        None => seq![s],
        Some(i) => {
            proof {
                lemma_first_index(s, c);
            }
            seq![s.subrange(0, i)] + spec_split(s.subrange(i + 1, s.len() as int), c)
        },
    }
}

/// Splitting `s` at its first `c`, found at `j`: the part before `j`, then
/// the parts of what follows `j`.
pub proof fn lemma_split_at(s: Seq<char>, c: char, j: int)
    requires
        0 <= j < s.len(),
        s[j] == c,
        forall|k: int| 0 <= k < j ==> s[k] != c,
    ensures
        spec_split(s, c) == seq![s.subrange(0, j)] + spec_split(s.subrange(j + 1, s.len() as int), c),
{
    reveal(spec_split);
    lemma_first_index(s, c);
    let f = first_index(s, c)->0;
    if f < j {
    } else if j < f {
    }
}

/// Splitting `s` holding no `c` gives `s` alone.
pub proof fn lemma_split_none(s: Seq<char>, c: char)
    requires
        !s.contains(c),
    ensures
        spec_split(s, c) == seq![s],
{
    reveal(spec_split);
    lemma_first_index(s, c);
}

/// The parts of `s` separated by `c`.
pub fn split(s: &str, c: char) -> (r: Vec<&str>)
    ensures
        r@.map_values(|p: &str| p@) == spec_split(s@, c),
{
    let n = s.unicode_len();
    let mut parts: Vec<&str> = Vec::new();
    let ghost views: Seq<Seq<char>> = seq![];
    let mut start: usize = 0;
    let mut i: usize = 0;
    assert(s@.subrange(0, n as int) =~= s@);
    while i < n
        invariant
            n == s@.len(),
            0 <= start <= i <= n,
            forall|k: int| start <= k < i ==> s@[k] != c,
            views == parts@.map_values(|p: &str| p@),
            views + spec_split(s@.subrange(start as int, n as int), c) == spec_split(s@, c),
        decreases n - i,
    {
        if s.get_char(i) == c {
            let part = s.substring_char(start, i);
            proof {
                let rest = s@.subrange(start as int, n as int);
                let j = (i - start) as int;
                assert forall|k: int| 0 <= k < j implies rest[k] != c by {
                    assert(rest[k] == s@[start + k]);
                }
                lemma_split_at(rest, c, j);
                assert(rest.subrange(0, j) =~= part@);
                assert(rest.subrange(j + 1, rest.len() as int) =~= s@.subrange(i + 1, n as int));
                assert(views.push(part@) + spec_split(s@.subrange(i + 1, n as int), c) =~= views + (
                seq![part@] + spec_split(s@.subrange(i + 1, n as int), c)));
                views = views.push(part@);
            }
            parts.push(part);
            assert(views =~= parts@.map_values(|p: &str| p@));
            start = i + 1;
        }
        i = i + 1;
    }
    let last = s.substring_char(start, n);
    proof {
        let rest = s@.subrange(start as int, n as int);
        assert(rest =~= last@);
        if rest.contains(c) {
            let k = choose|k: int| 0 <= k < rest.len() && rest[k] == c;
            assert(s@[start + k] == c);
        }
        lemma_split_none(rest, c);
        views = views.push(last@);
    }
    parts.push(last);
    assert(views =~= parts@.map_values(|p: &str| p@));
    parts
}

} // verus!

verus! {

/// Whether `a` comes strictly before `b` in the lexicographic order of their
/// characters, the order of `str`'s comparison.
pub open spec fn str_lt(a: Seq<char>, b: Seq<char>) -> bool
    decreases a.len(),
{
    if a.len() == 0 {
        b.len() > 0
    } else if b.len() == 0 {
        false
    } else if a[0] != b[0] {
        a[0] < b[0]
    } else {
        str_lt(a.drop_first(), b.drop_first())
    }
}

/// `str_lt` is a strict total order.
pub proof fn lemma_str_lt_total(a: Seq<char>, b: Seq<char>)
    ensures
        !str_lt(a, a),
        str_lt(a, b) ==> !str_lt(b, a),
        a != b ==> str_lt(a, b) || str_lt(b, a),
    decreases a.len(),
{
    if a.len() > 0 && b.len() > 0 {
        lemma_str_lt_total(a.drop_first(), b.drop_first());
        if a[0] == b[0] && a != b {
            assert(a =~= seq![a[0]] + a.drop_first());
            assert(b =~= seq![b[0]] + b.drop_first());
        }
    } else if a.len() > 0 {
        lemma_str_lt_total(a.drop_first(), a.drop_first());
    } else if b.len() == 0 {
        assert(a =~= b);
    }
}

/// `str_lt` is transitive.
pub proof fn lemma_str_lt_trans(a: Seq<char>, b: Seq<char>, c: Seq<char>)
    requires
        str_lt(a, b),
        str_lt(b, c),
    ensures
        str_lt(a, c),
    decreases a.len(),
{
    if a.len() > 0 && b.len() > 0 && c.len() > 0 && a[0] == b[0] && b[0] == c[0] {
        lemma_str_lt_trans(a.drop_first(), b.drop_first(), c.drop_first());
    }
}

/// Whether `a` comes strictly before `b`.
pub fn str_less(a: &str, b: &str) -> (r: bool)
    ensures
        r == str_lt(a@, b@),
{
    let n = a.unicode_len();
    let m = b.unicode_len();
    let mut i: usize = 0;
    assert(a@.skip(0) =~= a@);
    assert(b@.skip(0) =~= b@);
    while i < n && i < m
        invariant
            n == a@.len(),
            m == b@.len(),
            0 <= i <= n,
            i <= m,
            str_lt(a@, b@) == str_lt(a@.skip(i as int), b@.skip(i as int)),
        decreases n - i,
    {
        let x = a.get_char(i);
        let y = b.get_char(i);
        assert(a@.skip(i as int)[0] == x);
        assert(b@.skip(i as int)[0] == y);
        if x != y {
            return x < y;
        }
        assert(a@.skip(i as int).drop_first() =~= a@.skip(i + 1));
        assert(b@.skip(i as int).drop_first() =~= b@.skip(i + 1));
        i = i + 1;
    }
    i < m
}

} // verus!

verus! {

/// Splitting `a + [c] + b` around its last `c`, when `b` holds no `c`, gives
/// back `a` and `b`; and what `spec_rsplit_once` gives is of that form.
pub proof fn lemma_rsplit_once(s: Seq<char>, c: char)
    ensures
        spec_rsplit_once(s, c) matches Some((a, b)) ==> s == a + seq![c] + b && !b.contains(c),
        spec_rsplit_once(s, c) is None ==> !s.contains(c),
{
    if s.contains(c) {
        let j = choose|j: int| 0 <= j < s.len() && s[j] == c;
        lemma_last_exists(s, c, j);
        let i = last_index(s, c)->0;
        let b = s.subrange(i + 1, s.len() as int);
        assert(s =~= s.subrange(0, i) + seq![c] + b);
        if b.contains(c) {
            let k = choose|k: int| 0 <= k < b.len() && b[k] == c;
            assert(s[i + 1 + k] == c);
        }
    }
}

proof fn lemma_last_exists(s: Seq<char>, c: char, j: int)
    requires
        0 <= j < s.len(),
        s[j] == c,
    ensures
        exists|i: int| 0 <= i < s.len() && s[i] == c && forall|k: int| i < k < s.len() ==> s[k] != c,
    decreases s.len() - j,
{
    if exists|i: int| j < i < s.len() && s[i] == c {
        let i = choose|i: int| j < i < s.len() && s[i] == c;
        lemma_last_exists(s, c, i);
    } else {
        assert(forall|k: int| j < k < s.len() ==> s[k] != c);
    }
}

/// Splitting `a + [c] + b`, when `b` holds no `c`, gives the parts of `a`
/// followed by `b`.
pub proof fn lemma_split_append(a: Seq<char>, c: char, b: Seq<char>)
    requires
        !b.contains(c),
    ensures
        spec_split(a + seq![c] + b, c) == spec_split(a, c).push(b),
    decreases a.len(),
{
    let s = a + seq![c] + b;
    lemma_first_index(a, c);
    match first_index(a, c) {
        None => {
            lemma_split_none(a, c);
            assert(s[a.len() as int] == c);
            assert forall|k: int| 0 <= k < a.len() implies s[k] != c by {
                assert(s[k] == a[k]);
                if a[k] == c {
                    assert(a.contains(c));
                }
            }
            lemma_split_at(s, c, a.len() as int);
            assert(s.subrange(0, a.len() as int) =~= a);
            assert(s.subrange(a.len() as int + 1, s.len() as int) =~= b);
            lemma_split_none(b, c);
            assert(seq![a] + seq![b] =~= seq![a].push(b));
        },
        Some(i) => {
            assert(s[i] == c);
            assert forall|k: int| 0 <= k < i implies s[k] != c by {
                assert(s[k] == a[k]);
            }
            lemma_split_at(s, c, i);
            lemma_split_at(a, c, i);
            let rest = a.subrange(i + 1, a.len() as int);
            assert(s.subrange(0, i) =~= a.subrange(0, i));
            assert(s.subrange(i + 1, s.len() as int) =~= rest + seq![c] + b);
            lemma_split_append(rest, c, b);
            assert(seq![a.subrange(0, i)] + spec_split(rest, c).push(b) =~= (seq![a.subrange(0, i)] + spec_split(rest, c)).push(b));
        },
    }
}

} // verus!

verus! {

/// There is always at least one part.
pub proof fn lemma_split_len(s: Seq<char>, c: char)
    ensures
        spec_split(s, c).len() >= 1,
        !s.contains(c) ==> spec_split(s, c) == seq![s],
{
    reveal(spec_split);
    lemma_first_index(s, c);
}

} // verus!

verus! {

/// The decimal digit of `d`.
pub open spec fn digit(d: nat) -> char {
    if d == 0 { '0' } else if d == 1 { '1' } else if d == 2 { '2' } else if d == 3 { '3' }
    else if d == 4 { '4' } else if d == 5 { '5' } else if d == 6 { '6' } else if d == 7 { '7' }
    else if d == 8 { '8' } else { '9' }
}

/// The decimal writing of `n`, without leading zeros.
pub open spec fn decimal_text(n: nat) -> Seq<char>
    decreases n,
{
    if n < 10 {
        seq![digit(n)]
    } else {
        decimal_text(n / 10) + seq![digit(n % 10)]
    }
}

fn digit_str(d: u64) -> (r: &'static str)
    requires
        d < 10,
    ensures
        r@ == seq![digit(d as nat)],
{
    proof {
        reveal_strlit("0");
        reveal_strlit("1");
        reveal_strlit("2");
        reveal_strlit("3");
        reveal_strlit("4");
        reveal_strlit("5");
        reveal_strlit("6");
        reveal_strlit("7");
        reveal_strlit("8");
        reveal_strlit("9");
    }
    if d == 0 { "0" } else if d == 1 { "1" } else if d == 2 { "2" } else if d == 3 { "3" }
    else if d == 4 { "4" } else if d == 5 { "5" } else if d == 6 { "6" } else if d == 7 { "7" }
    else if d == 8 { "8" } else { "9" }
}

/// The decimal writing of `n`.
pub fn decimal(n: u64) -> (r: String)
    ensures
        r@ == decimal_text(n as nat),
    decreases n,
{
    if n < 10 {
        String::from_str(digit_str(n))
    } else {
        let mut s = decimal(n / 10);
        s.append(digit_str(n % 10));
        s
    }
}

} // verus!

verus! {

/// Whether `c` is ASCII whitespace: space, tab, line feed, form feed or
/// carriage return.
pub open spec fn ascii_ws(c: char) -> bool {
    c == ' ' || c == '\t' || c == '\n' || c == '\x0C' || c == '\r'
}

/// The length of the run of characters other than ASCII whitespace that
/// starts `s`.
pub open spec fn run_len(s: Seq<char>) -> nat
    decreases s.len(),
{
    if s.len() == 0 || ascii_ws(s[0]) {
        0
    } else {
        1 + run_len(s.drop_first())
    }
}

/// The words of `s`: its maximal runs of characters other than ASCII
/// whitespace, as `str::split_ascii_whitespace` gives them.
pub open spec fn words(s: Seq<char>) -> Seq<Seq<char>>
    decreases s.len(),
{
    if s.len() == 0 {
        seq![]
    } else if ascii_ws(s[0]) {
        words(s.drop_first())
    } else {
        proof {
            lemma_run_len(s);
        }
        seq![s.take(run_len(s) as int)] + words(s.skip(run_len(s) as int))
    }
}

pub proof fn lemma_run_len(s: Seq<char>)
    ensures
        run_len(s) <= s.len(),
        s.len() > 0 && !ascii_ws(s[0]) ==> run_len(s) > 0,
        forall|k: int| 0 <= k < run_len(s) ==> !ascii_ws(#[trigger] s[k]),
        run_len(s) < s.len() ==> ascii_ws(s[run_len(s) as int]),
    decreases s.len(),
{
    if s.len() > 0 && !ascii_ws(s[0]) {
        let t = s.drop_first();
        lemma_run_len(t);
        assert forall|k: int| 0 <= k < run_len(s) implies !ascii_ws(#[trigger] s[k]) by {
            if k > 0 {
                assert(s[k] == t[k - 1]);
            }
        }
        if run_len(s) < s.len() {
            assert(s[run_len(s) as int] == t[run_len(t) as int]);
        }
    }
}

/// A run of non-whitespace characters from `i` to `j`, ending `s` or followed
/// by whitespace, has the length of the run starting at `i`.
proof fn lemma_run_at(s: Seq<char>, i: int, j: int)
    requires
        0 <= i <= j <= s.len(),
        forall|k: int| i <= k < j ==> !ascii_ws(#[trigger] s[k]),
        j < s.len() ==> ascii_ws(s[j]),
    ensures
        run_len(s.skip(i)) == j - i,
    decreases j - i,
{
    if i < j {
        lemma_run_at(s, i + 1, j);
        assert(s.skip(i).drop_first() =~= s.skip(i + 1));
        assert(s.skip(i)[0] == s[i]);
    } else {
        if j < s.len() {
            assert(s.skip(i)[0] == s[j]);
        }
    }
}

/// The words of `s`.
pub fn split_words(s: &str) -> (r: Vec<&str>)
    ensures
        r@.map_values(|w: &str| w@) == words(s@),
{
    let n = s.unicode_len();
    let mut out: Vec<&str> = Vec::new();
    let ghost mut got: Seq<Seq<char>> = seq![];
    let mut i: usize = 0;
    assert(s@.skip(0) =~= s@);
    while i < n
        invariant
            n == s@.len(),
            0 <= i <= n,
            got == out@.map_values(|w: &str| w@),
            got + words(s@.skip(i as int)) == words(s@),
        decreases n - i,
    {
        let c = s.get_char(i);
        if c == ' ' || c == '\t' || c == '\n' || c == '\x0C' || c == '\r' {
            assert(s@.skip(i as int)[0] == c);
            assert(s@.skip(i as int).drop_first() =~= s@.skip(i + 1));
            i = i + 1;
        } else {
            let mut j: usize = i + 1;
            while j < n
                invariant
                    n == s@.len(),
                    i < j <= n,
                    forall|k: int| i <= k < j ==> !ascii_ws(#[trigger] s@[k]),
                ensures
                    i < j <= n,
                    forall|k: int| i <= k < j ==> !ascii_ws(#[trigger] s@[k]),
                    j < n ==> ascii_ws(s@[j as int]),
                decreases n - j,
            {
                let d = s.get_char(j);
                if d == ' ' || d == '\t' || d == '\n' || d == '\x0C' || d == '\r' {
                    break;
                }
                j = j + 1;
            }
            proof {
                assert forall|k: int| i <= k < j implies !ascii_ws(#[trigger] s@[k]) by {}
            }
            let w = s.substring_char(i, j);
            proof {
                lemma_run_at(s@, i as int, j as int);
                let t = s@.skip(i as int);
                assert(t[0] == c);
                assert(t.take(run_len(t) as int) =~= w@);
                assert(t.skip(run_len(t) as int) =~= s@.skip(j as int));
                got = got.push(w@);
                assert(got + words(s@.skip(j as int)) =~= got.drop_last() + words(t));
            }
            out.push(w);
            assert(got =~= out@.map_values(|w: &str| w@));
            i = j;
        }
    }
    assert(s@.skip(n as int) =~= Seq::<char>::empty());
    assert(got + words(s@.skip(n as int)) =~= got);
    out
}

} // verus!
