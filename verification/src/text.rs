//! Text as a sequence of characters: searching, splitting, trimming and building.
use vstd::prelude::*;

verus! {

/// `String::push` appends the given character to the end of the string.
pub assume_specification[ String::push ](s: &mut String, c: char)
    ensures
        final(s)@ == old(s)@.push(c),
;

/// `pat` stands in `s` at index `i`.
pub open spec fn found_at<T>(s: Seq<T>, pat: Seq<T>, i: int) -> bool {
    &&& 0 <= i
    &&& i + pat.len() <= s.len()
    &&& forall|k: int| 0 <= k < pat.len() ==> s[i + k] == #[trigger] pat[k]
}

/// `i` is the first index at which `pat` stands in `s`.
pub open spec fn first_at<T>(s: Seq<T>, pat: Seq<T>, i: int) -> bool {
    &&& found_at(s, pat, i)
    &&& forall|j: int| 0 <= j < i ==> !#[trigger] found_at(s, pat, j)
}

/// `pat` stands somewhere in `s`.
pub open spec fn occurs<T>(s: Seq<T>, pat: Seq<T>) -> bool {
    exists|i: int| #[trigger] found_at(s, pat, i)
}

/// The first index at which `pat` stands in `s`, if there is one.
pub open spec fn find<T>(s: Seq<T>, pat: Seq<T>) -> Option<int> {
    if occurs(s, pat) {
        Some(choose|i: int| first_at(s, pat, i))
    } else {
        None
    }
}

/// The first index is unique.
pub proof fn lemma_find_is<T>(s: Seq<T>, pat: Seq<T>, i: int)
    requires
        first_at(s, pat, i),
    ensures
        find(s, pat) == Some(i),
{
    assert(occurs(s, pat));
    let j = choose|j: int| first_at(s, pat, j);
    assert(first_at(s, pat, j));
    if j < i {
        assert(!found_at(s, pat, j));
    }
    if i < j {
        assert(!found_at(s, pat, i));
    }
}

/// A pattern that stands somewhere has a first place.
pub proof fn lemma_find_some<T>(s: Seq<T>, pat: Seq<T>)
    requires
        occurs(s, pat),
    ensures
        find(s, pat) is Some,
        first_at(s, pat, find(s, pat)->0),
{
    let w = choose|i: int| found_at(s, pat, i);
    lemma_least_below(s, pat, w);
    let i = choose|i: int| first_at(s, pat, i);
    lemma_find_is(s, pat, i);
}

proof fn lemma_least_below<T>(s: Seq<T>, pat: Seq<T>, w: int)
    requires
        found_at(s, pat, w),
    ensures
        exists|i: int| first_at(s, pat, i),
    decreases w,
{
    if exists|j: int| 0 <= j < w && #[trigger] found_at(s, pat, j) {
        let j = choose|j: int| 0 <= j < w && #[trigger] found_at(s, pat, j);
        lemma_least_below(s, pat, j);
    } else {
        assert(first_at(s, pat, w));
    }
}

/// What stands in `s` before the first `pat`: all of `s` where there is none.
pub open spec fn before<T>(s: Seq<T>, pat: Seq<T>) -> Seq<T> {
    match find(s, pat) {
        Some(i) => s.take(i),
        None => s,
    }
}

/// `s` begins with `pat`.
pub open spec fn begins<T>(s: Seq<T>, pat: Seq<T>) -> bool {
    pat.len() <= s.len() && s.take(pat.len() as int) == pat
}

/// `s` ends with `pat`.
pub open spec fn ends<T>(s: Seq<T>, pat: Seq<T>) -> bool {
    pat.len() <= s.len() && s.skip(s.len() - pat.len()) == pat
}

/// The characters with the Unicode property White_Space.
pub open spec fn is_space(c: char) -> bool {
    ||| '\u{9}' <= c <= '\u{d}'
    ||| c == '\u{20}'
    ||| c == '\u{85}'
    ||| c == '\u{a0}'
    ||| c == '\u{1680}'
    ||| '\u{2000}' <= c <= '\u{200a}'
    ||| c == '\u{2028}'
    ||| c == '\u{2029}'
    ||| c == '\u{202f}'
    ||| c == '\u{205f}'
    ||| c == '\u{3000}'
}

/// Tells whether `c` is white space.
pub fn char_is_space(c: char) -> (r: bool)
    ensures
        r == is_space(c),
{
    ('\u{9}' <= c && c <= '\u{d}') || c == '\u{20}' || c == '\u{85}' || c == '\u{a0}' || c
        == '\u{1680}' || ('\u{2000}' <= c && c <= '\u{200a}') || c == '\u{2028}' || c == '\u{2029}'
        || c == '\u{202f}' || c == '\u{205f}' || c == '\u{3000}'
}

/// Where a run of characters ends.
#[derive(Clone, Copy)]
pub enum Stop {
    /// At the given character.
    At(char),
    /// At white space.
    Space,
    /// At anything but white space.
    NonSpace,
}

impl Stop {
    /// A run ends at `c`.
    pub open spec fn hit(self, c: char) -> bool {
        match self {
            Stop::At(d) => c == d,
            Stop::Space => is_space(c),
            Stop::NonSpace => !is_space(c),
        }
    }

    /// Tells whether a run ends at `c`.
    pub fn test(self, c: char) -> (r: bool)
        ensures
            r == self.hit(c),
    {
        match self {
            Stop::At(d) => c == d,
            Stop::Space => char_is_space(c),
            Stop::NonSpace => !char_is_space(c),
        }
    }
}

/// The number of characters of `s` before the first one at which a run ends.
pub open spec fn run(s: Seq<char>, stop: Stop) -> int
    decreases s.len(),
{
    if s.len() == 0 || stop.hit(s[0]) {
        0
    } else {
        1 + run(s.skip(1), stop)
    }
}

/// A run is the longest prefix without a stop.
pub proof fn lemma_run_is(s: Seq<char>, stop: Stop, n: int)
    requires
        0 <= n <= s.len(),
        forall|i: int| 0 <= i < n ==> !stop.hit(#[trigger] s[i]),
        n == s.len() || stop.hit(s[n]),
    ensures
        run(s, stop) == n,
    decreases s.len(),
{
    if n > 0 {
        let t = s.skip(1);
        assert forall|i: int| 0 <= i < n - 1 implies !stop.hit(#[trigger] t[i]) by {
            assert(t[i] == s[i + 1]);
        }
        lemma_run_is(t, stop, n - 1);
    }
}

/// What holds of a run.
pub proof fn lemma_run(s: Seq<char>, stop: Stop)
    ensures
        0 <= run(s, stop) <= s.len(),
        forall|i: int| 0 <= i < run(s, stop) ==> !stop.hit(#[trigger] s[i]),
        run(s, stop) < s.len() ==> stop.hit(s[run(s, stop)]),
    decreases s.len(),
{
    if s.len() > 0 && !stop.hit(s[0]) {
        let t = s.skip(1);
        lemma_run(t, stop);
        assert forall|i: int| 0 <= i < run(s, stop) implies !stop.hit(#[trigger] s[i]) by {
            if i > 0 {
                assert(t[i - 1] == s[i]);
            }
        }
    }
}

/// The pieces of `s` between occurrences of `c`.
pub open spec fn split_on(s: Seq<char>, c: char) -> Seq<Seq<char>>
    decreases s.len(),
    via split_on_decreases
{
    let n = run(s, Stop::At(c));
    if n >= s.len() {
        seq![s]
    } else {
        seq![s.take(n)] + split_on(s.skip(n + 1), c)
    }
}

#[via_fn]
proof fn split_on_decreases(s: Seq<char>, c: char) {
    lemma_run(s, Stop::At(c));
}

/// A text has at least one piece.
pub proof fn lemma_split_not_empty(s: Seq<char>, c: char)
    ensures
        split_on(s, c).len() > 0,
{
    lemma_run(s, Stop::At(c));
}

/// `s` without the carriage return that ends it, if one does.
pub open spec fn strip_cr(s: Seq<char>) -> Seq<char> {
    if s.len() > 0 && s.last() == '\r' {
        s.drop_last()
    } else {
        s
    }
}

/// The lines of `s`. A line ends at a line feed, or a carriage return and a line feed,
/// neither of which belongs to it; the last line may be without either.
pub open spec fn lines(s: Seq<char>) -> Seq<Seq<char>>
    decreases s.len(),
    via lines_decreases
{
    let n = run(s, Stop::At('\n'));
    if s.len() == 0 {
        Seq::empty()
    } else if n >= s.len() {
        seq![s]
    } else {
        seq![strip_cr(s.take(n))] + lines(s.skip(n + 1))
    }
}

#[via_fn]
proof fn lines_decreases(s: Seq<char>) {
    lemma_run(s, Stop::At('\n'));
}

/// The longest pieces of `s` that hold no white space, empty ones left out.
pub open spec fn words(s: Seq<char>) -> Seq<Seq<char>>
    decreases s.len(),
    via words_decreases
{
    let t = s.skip(run(s, Stop::NonSpace));
    if t.len() == 0 {
        Seq::empty()
    } else {
        seq![t.take(run(t, Stop::Space))] + words(t.skip(run(t, Stop::Space)))
    }
}

#[via_fn]
proof fn words_decreases(s: Seq<char>) {
    lemma_run(s, Stop::NonSpace);
    let t = s.skip(run(s, Stop::NonSpace));
    lemma_run(t, Stop::Space);
    if t.len() > 0 {
        assert(t[0] == s[run(s, Stop::NonSpace)]);
    }
}

/// `s` without the white space that ends it.
pub open spec fn trim_end(s: Seq<char>) -> Seq<char>
    decreases s.len(),
{
    if s.len() > 0 && is_space(s.last()) {
        trim_end(s.drop_last())
    } else {
        s
    }
}

/// `s` without the white space at either end.
pub open spec fn trim(s: Seq<char>) -> Seq<char> {
    trim_end(s.skip(run(s, Stop::NonSpace)))
}

proof fn lemma_trim_end_more(s: Seq<char>, back: Seq<char>)
    requires
        forall|i: int| 0 <= i < back.len() ==> is_space(#[trigger] back[i]),
    ensures
        trim_end(s + back) == trim_end(s),
    decreases back.len(),
{
    if back.len() == 0 {
        assert(s + back =~= s);
    } else {
        let t = back.drop_last();
        assert((s + back).drop_last() =~= s + t);
        assert(is_space(back[back.len() - 1]));
        assert(forall|i: int| 0 <= i < t.len() ==> #[trigger] t[i] == back[i]);
        lemma_trim_end_more(s, t);
    }
}

/// White space around a text is trimmed off with the text's own.
pub proof fn lemma_trim_surrounded(front: Seq<char>, s: Seq<char>, back: Seq<char>)
    requires
        forall|i: int| 0 <= i < front.len() ==> is_space(#[trigger] front[i]),
        forall|i: int| 0 <= i < back.len() ==> is_space(#[trigger] back[i]),
    ensures
        trim(front + s + back) == trim(s),
{
    let n = run(s, Stop::NonSpace);
    let all = front + s + back;
    lemma_run(s, Stop::NonSpace);
    if n < s.len() {
        assert forall|i: int| 0 <= i < front.len() + n implies !Stop::NonSpace.hit(
            #[trigger] all[i],
        ) by {
            if i < front.len() {
                assert(is_space(front[i]));
            } else {
                assert(!Stop::NonSpace.hit(s[i - front.len()]));
            }
        }
        assert(all[front.len() + n] == s[n]);
        lemma_run_is(all, Stop::NonSpace, front.len() + n);
        assert(all.skip(front.len() + n) =~= s.skip(n) + back);
        lemma_trim_end_more(s.skip(n), back);
    } else {
        assert forall|i: int| 0 <= i < all.len() implies !Stop::NonSpace.hit(#[trigger] all[i]) by {
            if i < front.len() {
                assert(is_space(front[i]));
            } else if i < front.len() + s.len() {
                assert(!Stop::NonSpace.hit(s[i - front.len()]));
            } else {
                assert(is_space(back[i - front.len() - s.len()]));
            }
        }
        lemma_run_is(all, Stop::NonSpace, all.len() as int);
        assert(all.skip(all.len() as int) =~= s.skip(n));
    }
}

/// `s` without the characters equal to `c`.
pub open spec fn without(s: Seq<char>, c: char) -> Seq<char>
    decreases s.len(),
{
    if s.len() == 0 {
        s
    } else if s.last() == c {
        without(s.drop_last(), c)
    } else {
        without(s.drop_last(), c).push(s.last())
    }
}

/// The views of a list of character vectors.
pub open spec fn views(v: Seq<Vec<char>>) -> Seq<Seq<char>> {
    Seq::new(v.len(), |i: int| v[i]@)
}

/// The characters of `s`, in order.
pub fn chars_of(s: &str) -> (r: Vec<char>)
    ensures
        r@ == s@,
{
    let mut out: Vec<char> = Vec::new();
    for c in it: s.chars()
        invariant
            out@ == it.seq().take(it.index()),
            it.seq() == s@,
    {
        out.push(c);
    }
    out
}

/// The string made of the given characters, in order.
pub fn string_of(chars: &[char]) -> (r: String)
    ensures
        r@ == chars@,
{
    let mut out = String::new();
    let n: usize = chars.len();
    for i in 0..n
        invariant
            n == chars@.len(),
            out@ == chars@.take(i as int),
    {
        out.push(chars[i]);
    }
    out
}

/// A copy of `chars[from..to]`.
pub fn slice_of(chars: &[char], from: usize, to: usize) -> (r: Vec<char>)
    requires
        from <= to <= chars@.len(),
    ensures
        r@ == chars@.subrange(from as int, to as int),
{
    let mut out: Vec<char> = Vec::new();
    for i in from..to
        invariant
            from <= to <= chars@.len(),
            out@ == chars@.subrange(from as int, i as int),
    {
        out.push(chars[i]);
    }
    out
}

/// Tells whether the two texts are equal.
pub fn same_chars(a: &[char], b: &[char]) -> (r: bool)
    ensures
        r == (a@ == b@),
{
    if a.len() != b.len() {
        return false;
    }
    let n: usize = a.len();
    for i in 0..n
        invariant
            n == a@.len(),
            n == b@.len(),
            forall|k: int| 0 <= k < i ==> a@[k] == b@[k],
    {
        if a[i] != b[i] {
            return false;
        }
    }
    assert(a@ =~= b@);
    true
}

/// Tells whether the two strings are equal.
pub fn same_text(a: &str, b: &str) -> (r: bool)
    ensures
        r == (a@ == b@),
{
    same_chars(&chars_of(a), &chars_of(b))
}

/// Tells whether `pat` stands in `s` at index `i`.
pub fn test_at(s: &[char], pat: &[char], i: usize) -> (r: bool)
    requires
        i + pat@.len() <= s@.len(),
    ensures
        r == found_at(s@, pat@, i as int),
{
    let n: usize = pat.len();
    let m: usize = s.len();
    for k in 0..n
        invariant
            n == pat@.len(),
            m == s@.len(),
            i + n <= m,
            forall|j: int| 0 <= j < k ==> s@[i + j] == #[trigger] pat@[j],
    {
        if s[i + k] != pat[k] {
            assert(s@[i + k] != pat@[k as int]);
            return false;
        }
    }
    true
}

/// The first index at which `pat` stands in `s`.
pub fn find_chars(s: &[char], pat: &[char]) -> (r: Option<usize>)
    ensures
        match r {
            Some(i) => find(s@, pat@) == Some(i as int) && i + pat@.len() <= s@.len(),
            None => find(s@, pat@) is None,
        },
{
    if pat.len() > s.len() {
        return None;
    }
    let last: usize = s.len() - pat.len();
    let mut i: usize = 0;
    while i <= last
        invariant
            last + pat@.len() == s@.len(),
            i <= last + 1,
            forall|j: int| 0 <= j < i ==> !#[trigger] found_at(s@, pat@, j),
        decreases last + 1 - i,
    {
        if test_at(s, pat, i) {
            proof {
                lemma_find_is(s@, pat@, i as int);
            }
            return Some(i);
        }
        if i == last {
            return None;
        }
        i += 1;
    }
    None
}

/// Tells whether `pat` stands somewhere in `s`.
pub fn has_text(s: &str, pat: &str) -> (r: bool)
    ensures
        r == occurs(s@, pat@),
{
    find_chars(&chars_of(s), &chars_of(pat)).is_some()
}

/// Being found at the start is beginning with the pattern.
pub proof fn lemma_begins(s: Seq<char>, pat: Seq<char>)
    ensures
        begins(s, pat) == found_at(s, pat, 0),
{
    if begins(s, pat) {
        assert forall|k: int| 0 <= k < pat.len() implies s[0 + k] == #[trigger] pat[k] by {
            assert(s.take(pat.len() as int)[k] == pat[k]);
        }
    }
    if found_at(s, pat, 0) {
        assert forall|k: int| 0 <= k < pat.len() implies s.take(pat.len() as int)[k]
            == pat[k] by {
            assert(s[0 + k] == pat[k]);
        }
        assert(s.take(pat.len() as int) =~= pat);
    }
}

/// Tells whether `s` begins with `pat`.
pub fn chars_begin(s: &[char], pat: &[char]) -> (r: bool)
    ensures
        r == begins(s@, pat@),
{
    proof {
        lemma_begins(s@, pat@);
    }
    pat.len() <= s.len() && test_at(s, pat, 0)
}

/// Tells whether `s` begins with `pat`.
pub fn text_begins(s: &str, pat: &str) -> (r: bool)
    ensures
        r == begins(s@, pat@),
{
    chars_begin(&chars_of(s), &chars_of(pat))
}

/// Tells whether `s` ends with `pat`.
pub fn text_ends(s: &str, pat: &str) -> (r: bool)
    ensures
        r == ends(s@, pat@),
{
    let a = chars_of(s);
    let b = chars_of(pat);
    if b.len() > a.len() {
        return false;
    }
    let tail = slice_of(&a, a.len() - b.len(), a.len());
    assert(tail@ == s@.skip(s@.len() - pat@.len()));
    same_chars(&tail, &b)
}

/// The end of the run of `s` that starts at `from`.
pub fn run_end(s: &[char], from: usize, stop: Stop) -> (r: usize)
    requires
        from <= s@.len(),
    ensures
        from <= r <= s@.len(),
        r == from + run(s@.skip(from as int), stop),
{
    let mut i: usize = from;
    while i < s.len() && !stop.test(s[i])
        invariant
            from <= i <= s@.len(),
            forall|k: int| from <= k < i ==> !stop.hit(#[trigger] s@[k]),
        decreases s@.len() - i,
    {
        i += 1;
    }
    proof {
        let t = s@.skip(from as int);
        assert forall|k: int| 0 <= k < i - from implies !stop.hit(#[trigger] t[k]) by {
            assert(t[k] == s@[from + k]);
        }
        if i < s@.len() {
            assert(t[i - from] == s@[i as int]);
        }
        lemma_run_is(t, stop, i - from);
    }
    i
}

/// Splits `s` at each `c`.
pub fn split_chars(s: &[char], c: char) -> (r: Vec<Vec<char>>)
    ensures
        views(r@) == split_on(s@, c),
{
    let mut out: Vec<Vec<char>> = Vec::new();
    let mut from: usize = 0;
    assert(s@.skip(0) =~= s@);
    assert(views(out@) + split_on(s@, c) =~= split_on(s@, c));
    loop
        invariant
            from <= s@.len(),
            views(out@) + split_on(s@.skip(from as int), c) == split_on(s@, c),
        decreases s@.len() - from,
    {
        let ghost rest = s@.skip(from as int);
        let end: usize = run_end(s, from, Stop::At(c));
        let piece = slice_of(s, from, end);
        let ghost prev = out@;
        assert(piece@ =~= rest.take(end - from));
        out.push(piece);
        assert(views(out@) =~= views(prev) + seq![piece@]);
        if end == s.len() {
            assert(piece@ =~= rest);
            assert(views(out@) =~= split_on(s@, c));
            return out;
        }
        assert(rest.skip(end - from + 1) =~= s@.skip(end + 1));
        assert(views(out@) + split_on(s@.skip(end + 1), c) =~= views(prev) + split_on(rest, c));
        from = end + 1;
    }
}

/// Splits `s` into its lines.
pub fn lines_of(s: &[char]) -> (r: Vec<Vec<char>>)
    ensures
        views(r@) == lines(s@),
{
    let mut out: Vec<Vec<char>> = Vec::new();
    let mut from: usize = 0;
    assert(s@.skip(0) =~= s@);
    assert(views(out@) + lines(s@) =~= lines(s@));
    while from < s.len()
        invariant
            from <= s@.len(),
            views(out@) + lines(s@.skip(from as int)) == lines(s@),
        decreases s@.len() - from,
    {
        let ghost rest = s@.skip(from as int);
        let ghost prev = out@;
        let end: usize = run_end(s, from, Stop::At('\n'));
        if end == s.len() {
            let piece = slice_of(s, from, end);
            assert(piece@ =~= rest);
            out.push(piece);
            assert(views(out@) =~= views(prev) + seq![piece@]);
            assert(views(out@) =~= lines(s@));
            return out;
        }
        let stop: usize = if end > from && s[end - 1] == '\r' {
            end - 1
        } else {
            end
        };
        let piece = slice_of(s, from, stop);
        assert(piece@ =~= strip_cr(rest.take(end - from)));
        out.push(piece);
        assert(views(out@) =~= views(prev) + seq![piece@]);
        assert(rest.skip(end - from + 1) =~= s@.skip(end + 1));
        assert(views(out@) + lines(s@.skip(end + 1)) =~= views(prev) + lines(rest));
        from = end + 1;
    }
    assert(s@.skip(from as int) =~= Seq::empty());
    assert(views(out@) + lines(Seq::empty()) =~= views(out@));
    out
}

/// Splits `s` at white space.
pub fn words_of(s: &[char]) -> (r: Vec<Vec<char>>)
    ensures
        views(r@) == words(s@),
{
    let mut out: Vec<Vec<char>> = Vec::new();
    let mut from: usize = 0;
    assert(s@.skip(0) =~= s@);
    assert(views(out@) + words(s@) =~= words(s@));
    loop
        invariant
            from <= s@.len(),
            views(out@) + words(s@.skip(from as int)) == words(s@),
        decreases s@.len() - from,
    {
        let ghost rest = s@.skip(from as int);
        let ghost prev = out@;
        let start: usize = run_end(s, from, Stop::NonSpace);
        let ghost t = rest.skip(start - from);
        assert(t =~= s@.skip(start as int));
        if start == s.len() {
            assert(views(out@) + Seq::<Seq<char>>::empty() =~= views(out@));
            return out;
        }
        let end: usize = run_end(s, start, Stop::Space);
        proof {
            lemma_run(rest, Stop::NonSpace);
            lemma_run(t, Stop::Space);
            assert(t[0] == rest[start - from]);
        }
        let piece = slice_of(s, start, end);
        assert(piece@ =~= t.take(end - start));
        out.push(piece);
        assert(views(out@) =~= views(prev) + seq![piece@]);
        assert(t.skip(end - start) =~= s@.skip(end as int));
        assert(views(out@) + words(s@.skip(end as int)) =~= views(prev) + words(rest));
        from = end;
    }
}

/// `s` without the white space at either end.
pub fn trim_chars(s: &[char]) -> (r: Vec<char>)
    ensures
        r@ == trim(s@),
{
    assert(s@.skip(0) =~= s@);
    let start: usize = run_end(s, 0, Stop::NonSpace);
    let ghost t = s@.skip(start as int);
    let mut end: usize = s.len();
    assert(t =~= s@.subrange(start as int, end as int));
    while end > start && char_is_space(s[end - 1])
        invariant
            start <= end <= s@.len(),
            t == s@.skip(start as int),
            trim_end(s@.subrange(start as int, end as int)) == trim_end(t),
        decreases end - start,
    {
        let ghost u = s@.subrange(start as int, end as int);
        assert(u.last() == s@[end - 1]);
        assert(u.drop_last() =~= s@.subrange(start as int, end - 1));
        end -= 1;
    }
    let ghost u = s@.subrange(start as int, end as int);
    assert(end > start ==> u.last() == s@[end - 1]);
    slice_of(s, start, end)
}

/// `s` without the characters equal to `c`.
pub fn remove_char(s: &[char], c: char) -> (r: Vec<char>)
    ensures
        r@ == without(s@, c),
{
    let mut out: Vec<char> = Vec::new();
    let n: usize = s.len();
    for i in 0..n
        invariant
            n == s@.len(),
            out@ == without(s@.take(i as int), c),
    {
        let ghost t = s@.take(i + 1);
        assert(t.drop_last() =~= s@.take(i as int));
        assert(t.last() == s@[i as int]);
        if s[i] != c {
            out.push(s[i]);
        }
    }
    assert(s@.take(n as int) =~= s@);
    out
}

/// A text begins with another if and only if it is the other with something behind it.
pub proof fn law_begins<T>(s: Seq<T>, pat: Seq<T>, rest: Seq<T>)
    ensures
        begins(pat + rest, pat),
        begins(s, pat) <==> pat.len() <= s.len() && s == pat + s.skip(pat.len() as int),
{
    assert((pat + rest).take(pat.len() as int) =~= pat);
    if begins(s, pat) {
        assert(s =~= pat + s.skip(pat.len() as int));
    }
    if pat.len() <= s.len() && s == pat + s.skip(pat.len() as int) {
        assert(s.take(pat.len() as int) =~= pat);
    }
}

/// A text ends with another if and only if it is the other with something before it.
pub proof fn law_ends<T>(s: Seq<T>, pat: Seq<T>, front: Seq<T>)
    ensures
        ends(front + pat, pat),
        ends(s, pat) <==> pat.len() <= s.len() && s == s.take(s.len() - pat.len()) + pat,
{
    assert((front + pat).skip(front.len() as int) =~= pat);
    if ends(s, pat) {
        assert(s =~= s.take(s.len() - pat.len()) + pat);
    }
    if pat.len() <= s.len() && s == s.take(s.len() - pat.len()) + pat {
        assert(s.skip(s.len() - pat.len()) =~= pat);
    }
}

proof fn lemma_found_at<T>(s: Seq<T>, pat: Seq<T>, i: int)
    ensures
        found_at(s, pat, i) <==> 0 <= i && i + pat.len() <= s.len() && s.subrange(
            i,
            i + pat.len(),
        ) == pat,
{
    if found_at(s, pat, i) {
        assert forall|k: int| 0 <= k < pat.len() implies s.subrange(i, i + pat.len())[k]
            == pat[k] by {
            assert(s[i + k] == pat[k]);
        }
        assert(s.subrange(i, i + pat.len()) =~= pat);
    }
    if 0 <= i && i + pat.len() <= s.len() && s.subrange(i, i + pat.len()) == pat {
        assert forall|k: int| 0 <= k < pat.len() implies s[i + k] == #[trigger] pat[k] by {
            assert(s.subrange(i, i + pat.len())[k] == pat[k]);
        }
    }
}

/// A text occurs in every text that it stands in the middle of, and only there.
pub proof fn law_occurs<T>(s: Seq<T>, pat: Seq<T>, front: Seq<T>, back: Seq<T>)
    ensures
        occurs(front + pat + back, pat),
        occurs(s, pat) <==> exists|i: int|
            0 <= i && i + pat.len() <= s.len() && #[trigger] s.subrange(i, i + pat.len()) == pat,
{
    let all = front + pat + back;
    let n = front.len() as int;
    assert(all.subrange(n, n + pat.len()) =~= pat);
    lemma_found_at(all, pat, n);
    if occurs(s, pat) {
        let i = choose|i: int| found_at(s, pat, i);
        lemma_found_at(s, pat, i);
        assert(s.subrange(i, i + pat.len()) == pat);
    }
    if exists|i: int|
        0 <= i && i + pat.len() <= s.len() && #[trigger] s.subrange(i, i + pat.len()) == pat {
        let i = choose|i: int|
            0 <= i && i + pat.len() <= s.len() && #[trigger] s.subrange(i, i + pat.len()) == pat;
        lemma_found_at(s, pat, i);
    }
}

/// What is found is the first place at which a text stands; nothing is found only where it stands
/// nowhere. What stands before it is the text up to there.
pub proof fn law_find<T>(s: Seq<T>, pat: Seq<T>, j: int)
    requires
        0 <= j,
        j + pat.len() <= s.len(),
        s.subrange(j, j + pat.len()) == pat,
    ensures
        find(s, pat) is Some,
        0 <= find(s, pat)->0 <= j,
        s.subrange(find(s, pat)->0, find(s, pat)->0 + pat.len()) == pat,
        before(s, pat) == s.take(find(s, pat)->0),
{
    lemma_found_at(s, pat, j);
    lemma_find_some(s, pat);
    let i = find(s, pat)->0;
    lemma_found_at(s, pat, i);
    if j < i {
        assert(!found_at(s, pat, j));
    }
}

/// Where a text stands nowhere, nothing is found, and all of the text stands before it.
pub proof fn law_find_none<T>(s: Seq<T>, pat: Seq<T>)
    requires
        forall|j: int|
            0 <= j && j + pat.len() <= s.len() ==> #[trigger] s.subrange(j, j + pat.len()) != pat,
    ensures
        find(s, pat) is None,
        before(s, pat) == s,
{
    if occurs(s, pat) {
        let i = choose|i: int| found_at(s, pat, i);
        lemma_found_at(s, pat, i);
    }
}

/// Some pieces with a character between each and the next.
pub open spec fn joined_by(pieces: Seq<Seq<char>>, c: char) -> Seq<char>
    decreases pieces.len(),
{
    if pieces.len() == 0 {
        Seq::empty()
    } else if pieces.len() == 1 {
        pieces[0]
    } else {
        pieces[0] + seq![c] + joined_by(pieces.skip(1), c)
    }
}

/// The pieces of a text, put together again, are the text, and none of them holds the character
/// between them.
pub proof fn law_pieces_make_the_text(s: Seq<char>, c: char)
    ensures
        split_on(s, c).len() > 0,
        joined_by(split_on(s, c), c) == s,
        forall|i: int|
            0 <= i < split_on(s, c).len() ==> !(#[trigger] split_on(s, c)[i]).contains(c),
    decreases s.len(),
{
    let n = run(s, Stop::At(c));
    lemma_run(s, Stop::At(c));
    let pieces = split_on(s, c);
    if n >= s.len() {
        assert(pieces =~= seq![s]);
        assert(!s.contains(c)) by {
            assert forall|k: int| 0 <= k < s.len() implies s[k] != c by {
                assert(!Stop::At(c).hit(s[k]));
            }
        }
    } else {
        let more = split_on(s.skip(n + 1), c);
        law_pieces_make_the_text(s.skip(n + 1), c);
        assert(pieces =~= seq![s.take(n)] + more);
        assert(pieces.skip(1) =~= more);
        assert(s[n] == c);
        assert(s =~= s.take(n) + seq![c] + s.skip(n + 1));
        assert forall|i: int| 0 <= i < pieces.len() implies !(#[trigger] pieces[i]).contains(c) by {
            if i == 0 {
                assert forall|k: int| 0 <= k < n implies s.take(n)[k] != c by {
                    assert(!Stop::At(c).hit(s[k]));
                }
            } else {
                assert(pieces[i] == more[i - 1]);
            }
        }
    }
}

/// A line ends at a line feed, or at a carriage return and a line feed, which do not belong to it;
/// what follows is the other lines. What no line feed follows is a line too, unless it is empty.
pub proof fn law_lines(line: Seq<char>, rest: Seq<char>)
    requires
        !line.contains('\n'),
    ensures
        line.len() == 0 || line.last() != '\r' ==> lines(line + seq!['\n'] + rest) == seq![line]
            + lines(rest),
        lines(line + seq!['\r', '\n'] + rest) == seq![line] + lines(rest),
        line.len() > 0 ==> lines(line) == seq![line],
        lines(Seq::empty()) == Seq::<Seq<char>>::empty(),
{
    let a = line + seq!['\n'] + rest;
    let n = line.len() as int;
    assert forall|i: int| 0 <= i < n implies line[i] != '\n' by {
        assert(line.contains(line[i]));
    }
    assert forall|i: int| 0 <= i < n implies !Stop::At('\n').hit(#[trigger] a[i]) by {
        assert(a[i] == line[i]);
    }
    lemma_run_is(a, Stop::At('\n'), n);
    assert(a.take(n) =~= line);
    assert(a.skip(n + 1) =~= rest);
    let b = line + seq!['\r', '\n'] + rest;
    assert forall|i: int| 0 <= i < n + 1 implies !Stop::At('\n').hit(#[trigger] b[i]) by {
        if i < n {
            assert(b[i] == line[i]);
        }
    }
    assert(b[n + 1] == '\n');
    lemma_run_is(b, Stop::At('\n'), n + 1);
    assert(b.take(n + 1).last() == '\r');
    assert(b.take(n + 1).drop_last() =~= line);
    assert(b.skip(n + 2) =~= rest);
    if n > 0 {
        lemma_run_is(line, Stop::At('\n'), n);
    }
}

proof fn lemma_words_spaced(s: Seq<char>)
    requires
        s.len() > 0,
        is_space(s[0]),
    ensures
        words(s) == words(s.skip(1)),
{
    let n = run(s, Stop::NonSpace);
    assert(n == 1 + run(s.skip(1), Stop::NonSpace));
    lemma_run(s.skip(1), Stop::NonSpace);
    assert(s.skip(n) =~= s.skip(1).skip(n - 1));
}

proof fn lemma_first_word(w: Seq<char>, rest: Seq<char>)
    requires
        w.len() > 0,
        forall|i: int| 0 <= i < w.len() ==> !is_space(#[trigger] w[i]),
        rest.len() == 0 || is_space(rest[0]),
    ensures
        words(w + rest) == seq![w] + words(rest),
{
    let s = w + rest;
    let n = w.len() as int;
    assert(!is_space(w[0]));
    assert(s[0] == w[0]);
    lemma_run_is(s, Stop::NonSpace, 0);
    assert(s.skip(0) =~= s);
    assert forall|i: int| 0 <= i < n implies !Stop::Space.hit(#[trigger] s[i]) by {
        assert(!is_space(w[i]));
    }
    lemma_run_is(s, Stop::Space, n);
    assert(s.take(n) =~= w);
    assert(s.skip(n) =~= rest);
}

/// White space parts the words of a text; a text without white space is a word itself, unless it
/// is empty.
pub proof fn law_words(a: Seq<char>, c: char, b: Seq<char>)
    requires
        is_space(c),
    ensures
        words(a + seq![c] + b) == words(a) + words(b),
        a.len() > 0 && (forall|i: int| 0 <= i < a.len() ==> !is_space(#[trigger] a[i]))
            ==> words(a) == seq![a],
        words(Seq::empty()) == Seq::<Seq<char>>::empty(),
    decreases a.len(),
{
    let s = a + seq![c] + b;
    if a.len() > 0 && (forall|i: int| 0 <= i < a.len() ==> !is_space(#[trigger] a[i])) {
        lemma_first_word(a, Seq::empty());
        assert(a + Seq::empty() =~= a);
        assert(words(Seq::empty()) =~= Seq::empty());
        assert(seq![a] + words(Seq::empty()) =~= seq![a]);
    }
    if a.len() == 0 {
        assert(s.skip(1) =~= b);
        lemma_words_spaced(s);
        assert(words(a) + words(b) =~= words(b));
    } else if is_space(a[0]) {
        law_words(a.skip(1), c, b);
        lemma_words_spaced(a);
        lemma_words_spaced(s);
        assert(s.skip(1) =~= a.skip(1) + seq![c] + b);
    } else {
        let n = run(a, Stop::Space);
        lemma_run(a, Stop::Space);
        let w = a.take(n);
        let rest = a.skip(n);
        assert(n > 0);
        assert forall|i: int| 0 <= i < w.len() implies !is_space(#[trigger] w[i]) by {
            assert(!Stop::Space.hit(a[i]));
        }
        if rest.len() > 0 {
            assert(rest[0] == a[n]);
        }
        assert(a =~= w + rest);
        assert(s =~= w + (rest + seq![c] + b));
        lemma_first_word(w, rest);
        lemma_first_word(w, rest + seq![c] + b);
        law_words(rest, c, b);
        assert(seq![w] + (words(rest) + words(b)) =~= (seq![w] + words(rest)) + words(b));
    }
}

/// Trimming takes the white space off both ends of a text, and nothing else.
pub proof fn law_trim(front: Seq<char>, s: Seq<char>, back: Seq<char>)
    requires
        forall|i: int| 0 <= i < front.len() ==> is_space(#[trigger] front[i]),
        forall|i: int| 0 <= i < back.len() ==> is_space(#[trigger] back[i]),
        s.len() > 0 ==> !is_space(s[0]) && !is_space(s[s.len() - 1]),
    ensures
        trim(front + s + back) == s,
{
    lemma_trim_surrounded(front, s, back);
    if s.len() > 0 {
        lemma_run_is(s, Stop::NonSpace, 0);
        assert(s.skip(0) =~= s);
    }
}

/// What is left of a text without a character is made of what is left of its parts.
pub proof fn law_without(a: Seq<char>, b: Seq<char>, c: char, d: char)
    ensures
        without(a + b, c) == without(a, c) + without(b, c),
        without(seq![d], c) == (if d == c {
            Seq::empty()
        } else {
            seq![d]
        }),
        without(Seq::empty(), c) == Seq::<char>::empty(),
    decreases b.len(),
{
    assert(seq![d].drop_last() =~= Seq::empty());
    assert(without(Seq::empty(), c) =~= Seq::empty());
    if b.len() == 0 {
        assert(a + b =~= a);
        assert(without(a, c) + without(b, c) =~= without(a, c));
    } else {
        law_without(a, b.drop_last(), c, d);
        assert((a + b).drop_last() =~= a + b.drop_last());
        if b.last() != c {
            assert((without(a, c) + without(b.drop_last(), c)).push(b.last()) =~= without(a, c)
                + without(b.drop_last(), c).push(b.last()));
        }
    }
}

/// A character parts a text into the pieces on its either side; a text without it is one piece.
pub proof fn law_split(a: Seq<char>, c: char, b: Seq<char>)
    ensures
        split_on(a + seq![c] + b, c) == split_on(a, c) + split_on(b, c),
        !a.contains(c) ==> split_on(a, c) == seq![a],
    decreases a.len(),
{
    let s = a + seq![c] + b;
    let n = run(a, Stop::At(c));
    lemma_run(a, Stop::At(c));
    if !a.contains(c) {
        if n < a.len() {
            assert(a.contains(a[n]));
        }
        assert(split_on(a, c) =~= seq![a]);
    }
    assert forall|i: int| 0 <= i < n implies !Stop::At(c).hit(#[trigger] s[i]) by {
        assert(!Stop::At(c).hit(a[i]));
    }
    if n < a.len() {
        assert(s[n] == a[n]);
        lemma_run_is(s, Stop::At(c), n);
        assert(s.take(n) =~= a.take(n));
        assert(s.skip(n + 1) =~= a.skip(n + 1) + seq![c] + b);
        law_split(a.skip(n + 1), c, b);
        assert(seq![a.take(n)] + (split_on(a.skip(n + 1), c) + split_on(b, c)) =~= (
        seq![a.take(n)] + split_on(a.skip(n + 1), c)) + split_on(b, c));
    } else {
        assert(s[n] == c);
        lemma_run_is(s, Stop::At(c), n);
        assert(s.take(n) =~= a);
        assert(s.skip(n + 1) =~= b);
    }
}

/// White space is what Unicode says: the control characters from the tab to the carriage return and
/// the next-line one, the space, the no-break spaces, the spaces of a given width, and the
/// separators of lines and paragraphs.
pub proof fn law_white_space(c: char)
    ensures
        is_space(c) <==> {
            let n = c as int;
            ||| 9 <= n <= 13
            ||| n == 32
            ||| n == 133
            ||| n == 160
            ||| n == 5760
            ||| 8192 <= n <= 8202
            ||| n == 8232
            ||| n == 8233
            ||| n == 8239
            ||| n == 8287
            ||| n == 12288
        },
{
}

} // verus!
