//! Character-level text handling: whitespace, trimming, lines, words,
//! decimal numbers, and the filter that keeps technical characters.
use vstd::prelude::*;

verus! {

/// The characters with the Unicode `White_Space` property, which is what
/// `char::is_whitespace` tests and what `str::trim` and
/// `str::split_whitespace` remove.
pub open spec fn is_whitespace(c: char) -> bool {
    ||| ('\u{9}' <= c && c <= '\u{d}')
    ||| c == ' '
    ||| c == '\u{85}'
    ||| c == '\u{a0}'
    ||| c == '\u{1680}'
    ||| ('\u{2000}' <= c && c <= '\u{200a}')
    ||| c == '\u{2028}'
    ||| c == '\u{2029}'
    ||| c == '\u{202f}'
    ||| c == '\u{205f}'
    ||| c == '\u{3000}'
}

pub fn char_is_whitespace(c: char) -> (r: bool)
    ensures
        r == is_whitespace(c),
{
    ('\u{9}' <= c && c <= '\u{d}') || c == ' ' || c == '\u{85}' || c == '\u{a0}' || c == '\u{1680}'
        || ('\u{2000}' <= c && c <= '\u{200a}') || c == '\u{2028}' || c == '\u{2029}' || c
        == '\u{202f}' || c == '\u{205f}' || c == '\u{3000}'
}

/// `s` without its leading whitespace.
pub open spec fn trim_start(s: Seq<char>) -> Seq<char>
    decreases s.len(),
{
    if s.len() > 0 && is_whitespace(s[0]) {
        trim_start(s.drop_first())
    } else {
        s
    }
}

/// `s` without its trailing whitespace.
pub open spec fn trim_end(s: Seq<char>) -> Seq<char>
    decreases s.len(),
{
    if s.len() > 0 && is_whitespace(s.last()) {
        trim_end(s.drop_last())
    } else {
        s
    }
}

/// `s` without leading and trailing whitespace, as `str::trim` gives it.
pub open spec fn trim(s: Seq<char>) -> Seq<char> {
    trim_end(trim_start(s))
}

/// The characters of a string slice, one element per `char`.
pub fn chars_of(s: &str) -> (v: Vec<char>)
    ensures
        v@ == s@,
{
    let n = s.unicode_len();
    let mut v: Vec<char> = Vec::new();
    for i in 0..n
        invariant
            n == s@.len(),
            v@ == s@.take(i as int),
    {
        let c = s.get_char(i);
        v.push(c);
        assert(s@.take(i + 1) =~= s@.take(i as int).push(c));
    }
    assert(s@.take(n as int) =~= s@);
    v
}

/// The bounds of `v@[from..to]` once whitespace is trimmed from both ends.
pub fn trim_bounds(v: &Vec<char>, from: usize, to: usize) -> (r: (usize, usize))
    requires
        from <= to <= v.len(),
    ensures
        from <= r.0 <= r.1 <= to,
        v@.subrange(r.0 as int, r.1 as int) == trim(v@.subrange(from as int, to as int)),
{
    let mut start = from;
    while start < to && char_is_whitespace(v[start])
        invariant
            from <= start <= to <= v.len(),
            trim_start(v@.subrange(from as int, to as int)) == trim_start(
                v@.subrange(start as int, to as int),
            ),
        decreases to - start,
    {
        assert(v@.subrange(start as int, to as int).drop_first() =~= v@.subrange(
            start + 1,
            to as int,
        ));
        start = start + 1;
    }
    let mut end = to;
    while end > start && char_is_whitespace(v[end - 1])
        invariant
            from <= start <= end <= to <= v.len(),
            trim_start(v@.subrange(from as int, to as int)) == v@.subrange(start as int, to as int),
            trim_end(v@.subrange(start as int, to as int)) == trim_end(
                v@.subrange(start as int, end as int),
            ),
        decreases end - start,
    {
        assert(v@.subrange(start as int, end as int).drop_last() =~= v@.subrange(
            start as int,
            end - 1,
        ));
        end = end - 1;
    }
    (start, end)
}


/// The characters allowed in a technical value: ASCII letters and digits and
/// `.`, `_`, `-`, `@`, `:`, `+`, `~`.
pub open spec fn is_technical_char(c: char) -> bool {
    ||| ('a' <= c && c <= 'z')
    ||| ('A' <= c && c <= 'Z')
    ||| ('0' <= c && c <= '9')
    ||| c == '.'
    ||| c == '_'
    ||| c == '-'
    ||| c == '@'
    ||| c == ':'
    ||| c == '+'
    ||| c == '~'
}

pub fn char_is_technical(c: char) -> (r: bool)
    ensures
        r == is_technical_char(c),
{
    ('a' <= c && c <= 'z') || ('A' <= c && c <= 'Z') || ('0' <= c && c <= '9') || c == '.' || c
        == '_' || c == '-' || c == '@' || c == ':' || c == '+' || c == '~'
}

/// The technical characters of `s`, in order.
pub open spec fn keep_technical(s: Seq<char>) -> Seq<char>
    decreases s.len(),
{
    if s.len() == 0 {
        seq![]
    } else if is_technical_char(s.last()) {
        keep_technical(s.drop_last()).push(s.last())
    } else {
        keep_technical(s.drop_last())
    }
}

/// The first `n` elements of `s`, or all of `s` where it is shorter.
pub open spec fn limit_len<A>(s: Seq<A>, n: nat) -> Seq<A> {
    if s.len() <= n {
        s
    } else {
        s.take(n as int)
    }
}

/// `String::push`: appends `c` to the end of `s`.
#[verifier::external_body]
pub(crate) fn push_char(s: &mut String, c: char)
    ensures
        final(s)@ == old(s)@.push(c),
{
    s.push(c);
}

/// A string holding `v@[from..to]`.
pub fn string_of(v: &Vec<char>, from: usize, to: usize) -> (r: String)
    requires
        from <= to <= v.len(),
    ensures
        r@ == v@.subrange(from as int, to as int),
{
    let mut r = String::new();
    let mut i = from;
    while i < to
        invariant
            from <= i <= to <= v.len(),
            r@ == v@.subrange(from as int, i as int),
        decreases to - i,
    {
        push_char(&mut r, v[i]);
        assert(v@.subrange(from as int, i + 1) =~= v@.subrange(from as int, i as int).push(v@[i as int]));
        i = i + 1;
    }
    r
}

/// The technical characters of `v@[from..to]`, at most `limit` of them.
pub fn collect_technical(v: &Vec<char>, from: usize, to: usize, limit: usize) -> (r: String)
    requires
        from <= to <= v.len(),
    ensures
        r@ == limit_len(keep_technical(v@.subrange(from as int, to as int)), limit as nat),
{
    let mut r = String::new();
    let mut count: usize = 0;
    let mut i = from;
    while i < to
        invariant
            from <= i <= to <= v.len(),
            count == r@.len(),
            count <= limit,
            r@ == limit_len(keep_technical(v@.subrange(from as int, i as int)), limit as nat),
        decreases to - i,
    {
        let c = v[i];
        let ghost before = v@.subrange(from as int, i as int);
        let ghost after = v@.subrange(from as int, i + 1);
        assert(after.drop_last() =~= before);
        assert(after.last() == c);
        if char_is_technical(c) {
            if count < limit {
                push_char(&mut r, c);
                count = count + 1;
            }
        }
        i = i + 1;
    }
    r
}

/// The characters of `s` are all technical.
pub open spec fn all_technical(s: Seq<char>) -> bool {
    forall|i: int| 0 <= i < s.len() ==> is_technical_char(#[trigger] s[i])
}

pub proof fn lemma_keep_technical_all(s: Seq<char>)
    ensures
        all_technical(keep_technical(s)),
        keep_technical(s).len() <= s.len(),
    decreases s.len(),
{
    if s.len() > 0 {
        lemma_keep_technical_all(s.drop_last());
    }
}

pub proof fn lemma_keep_technical_fixed(s: Seq<char>)
    requires
        all_technical(s),
    ensures
        keep_technical(s) == s,
    decreases s.len(),
{
    if s.len() > 0 {
        assert(is_technical_char(s[s.len() - 1]));
        lemma_keep_technical_fixed(s.drop_last());
        assert(s.drop_last().push(s.last()) =~= s);
    }
}

/// The technical characters of a concatenation are those of its parts.
pub proof fn lemma_keep_technical_concat(x: Seq<char>, y: Seq<char>)
    ensures
        keep_technical(x + y) == keep_technical(x) + keep_technical(y),
    decreases y.len(),
{
    if y.len() == 0 {
        assert(x + y =~= x);
        assert(keep_technical(x) + keep_technical(y) =~= keep_technical(x));
    } else {
        lemma_keep_technical_concat(x, y.drop_last());
        assert((x + y).drop_last() =~= x + y.drop_last());
        assert((x + y).last() == y.last());
        if is_technical_char(y.last()) {
            assert(keep_technical(x) + keep_technical(y.drop_last()).push(y.last()) =~= (
            keep_technical(x) + keep_technical(y.drop_last())).push(y.last()));
        }
    }
}

/// A character that is not technical adds nothing to the technical characters.
pub proof fn lemma_keep_technical_skips(a: Seq<char>, c: char, b: Seq<char>)
    requires
        !is_technical_char(c),
    ensures
        keep_technical(a + seq![c] + b) == keep_technical(a + b),
{
    lemma_keep_technical_concat(a + seq![c], b);
    lemma_keep_technical_concat(a, seq![c]);
    lemma_keep_technical_concat(a, b);
    assert(seq![c].drop_last() =~= Seq::<char>::empty());
    assert(keep_technical(seq![c]) == keep_technical(Seq::<char>::empty()));
    assert(keep_technical(a) + keep_technical(seq![c]) =~= keep_technical(a));
}

/// Trimming whitespace removes no technical character.
pub proof fn lemma_keep_technical_trim(s: Seq<char>)
    ensures
        keep_technical(trim(s)) == keep_technical(s),
{
    lemma_keep_technical_trim_start(s);
    lemma_keep_technical_trim_end(trim_start(s));
}

proof fn lemma_keep_technical_trim_start(s: Seq<char>)
    ensures
        keep_technical(trim_start(s)) == keep_technical(s),
    decreases s.len(),
{
    if s.len() > 0 && is_whitespace(s[0]) {
        lemma_keep_technical_trim_start(s.drop_first());
        lemma_keep_technical_skips(Seq::<char>::empty(), s[0], s.drop_first());
        assert(Seq::<char>::empty() + seq![s[0]] + s.drop_first() =~= s);
        assert(Seq::<char>::empty() + s.drop_first() =~= s.drop_first());
    }
}

proof fn lemma_keep_technical_trim_end(s: Seq<char>)
    ensures
        keep_technical(trim_end(s)) == keep_technical(s),
    decreases s.len(),
{
    if s.len() > 0 && is_whitespace(s.last()) {
        lemma_keep_technical_trim_end(s.drop_last());
    }
}

/// The characters `c` is whitespace for: the Unicode `White_Space` set.
pub proof fn lemma_whitespace_chars(c: char)
    ensures
        is_whitespace(c) <==> (c == '\t' || c == '\n' || c == '\u{b}' || c == '\u{c}' || c == '\r'
            || c == ' ' || c == '\u{85}' || c == '\u{a0}' || c == '\u{1680}' || ('\u{2000}' <= c
            && c <= '\u{200a}') || c == '\u{2028}' || c == '\u{2029}' || c == '\u{202f}' || c
            == '\u{205f}' || c == '\u{3000}'),
{
}

/// The technical characters: the ASCII letters and digits and `.` `_` `-`
/// `@` `:` `+` `~`, and no other.
pub proof fn lemma_technical_chars(c: char)
    ensures
        is_technical_char(c) <==> (('a' <= c && c <= 'z') || ('A' <= c && c <= 'Z') || ('0' <= c
            && c <= '9') || c == '.' || c == '_' || c == '-' || c == '@' || c == ':' || c == '+'
            || c == '~'),
        !is_technical_char(' ') && !is_technical_char('/') && !is_technical_char('=')
            && !is_technical_char('\0'),
{
}

/// Whitespace all through.
pub open spec fn all_whitespace(s: Seq<char>) -> bool {
    forall|i: int| 0 <= i < s.len() ==> is_whitespace(#[trigger] s[i])
}

proof fn lemma_trim_start_pad(w: Seq<char>, y: Seq<char>)
    requires
        all_whitespace(w),
    ensures
        trim_start(w + y) == trim_start(y),
    decreases w.len(),
{
    if w.len() > 0 {
        assert(is_whitespace(w[0]));
        assert((w + y)[0] == w[0]);
        assert((w + y).drop_first() =~= w.drop_first() + y);
        assert forall|i: int| 0 <= i < w.drop_first().len() implies is_whitespace(
            #[trigger] w.drop_first()[i],
        ) by {
            assert(w.drop_first()[i] == w[i + 1]);
        }
        lemma_trim_start_pad(w.drop_first(), y);
    } else {
        assert(w + y =~= y);
    }
}

proof fn lemma_trim_end_pad(y: Seq<char>, w: Seq<char>)
    requires
        all_whitespace(w),
    ensures
        trim_end(y + w) == trim_end(y),
    decreases w.len(),
{
    if w.len() > 0 {
        assert(is_whitespace(w[w.len() - 1]));
        assert((y + w).last() == w.last());
        assert((y + w).drop_last() =~= y + w.drop_last());
        assert forall|i: int| 0 <= i < w.drop_last().len() implies is_whitespace(
            #[trigger] w.drop_last()[i],
        ) by {
            assert(w.drop_last()[i] == w[i]);
        }
        lemma_trim_end_pad(y, w.drop_last());
    } else {
        assert(y + w =~= y);
    }
}

proof fn lemma_trim_start_concat(c: Seq<char>, w: Seq<char>)
    ensures
        trim_start(c).len() > 0 ==> trim_start(c + w) == trim_start(c) + w,
        trim_start(c).len() == 0 ==> trim_start(c + w) == trim_start(w),
    decreases c.len(),
{
    if c.len() == 0 {
        assert(c + w =~= w);
        assert(trim_start(c) =~= c);
    } else {
        assert((c + w)[0] == c[0]);
        assert((c + w).drop_first() =~= c.drop_first() + w);
        if is_whitespace(c[0]) {
            lemma_trim_start_concat(c.drop_first(), w);
        }
    }
}

/// Whitespace around a text changes nothing of it once trimmed.
pub proof fn lemma_trim_pad(w1: Seq<char>, c: Seq<char>, w2: Seq<char>)
    requires
        all_whitespace(w1),
        all_whitespace(w2),
    ensures
        trim(w1 + c + w2) == trim(c),
{
    assert(w1 + c + w2 =~= w1 + (c + w2));
    lemma_trim_start_pad(w1, c + w2);
    lemma_trim_start_concat(c, w2);
    if trim_start(c).len() > 0 {
        lemma_trim_end_pad(trim_start(c), w2);
    } else {
        lemma_trim_start_pad(w2, Seq::<char>::empty());
        assert(w2 + Seq::<char>::empty() =~= w2);
        assert(trim_start(Seq::<char>::empty()) =~= Seq::<char>::empty());
    }
}

pub proof fn lemma_trim_technical(s: Seq<char>)
    requires
        all_technical(s),
    ensures
        trim(s) == s,
{
    if s.len() > 0 {
        assert(is_technical_char(s[0]));
        assert(is_technical_char(s[s.len() - 1]));
    }
}


/// A line ended by a newline, without the carriage return that may precede it.
pub open spec fn close_line(cur: Seq<char>) -> Seq<char> {
    if cur.len() > 0 && cur.last() == '\r' {
        cur.drop_last()
    } else {
        cur
    }
}

/// The lines of `s`, where `cur` holds the part of a line read before `s`.
pub open spec fn lines_from(s: Seq<char>, cur: Seq<char>) -> Seq<Seq<char>>
    decreases s.len(),
{
    if s.len() == 0 {
        if cur.len() > 0 {
            seq![cur]
        } else {
            seq![]
        }
    } else if s[0] == '\n' {
        seq![close_line(cur)] + lines_from(s.drop_first(), seq![])
    } else {
        lines_from(s.drop_first(), cur.push(s[0]))
    }
}

/// The lines of `s` as `str::lines` yields them: split at `\n`, a `\r` right
/// before the `\n` dropped, and no empty line after a final `\n`.
pub open spec fn lines(s: Seq<char>) -> Seq<Seq<char>> {
    lines_from(s, seq![])
}

/// The lines of text that ends with a newline, followed by more text, are
/// the lines of the first part and then those of the second.
pub proof fn lemma_lines_from_concat(a: Seq<char>, b: Seq<char>, cur: Seq<char>)
    requires
        a.len() > 0,
        a.last() == '\n',
    ensures
        lines_from(a + b, cur) == lines_from(a, cur) + lines_from(b, seq![]),
    decreases a.len(),
{
    assert((a + b)[0] == a[0]);
    assert((a + b).drop_first() =~= a.drop_first() + b);
    if a.len() == 1 {
        assert(a.drop_first() + b =~= b);
        assert(lines_from(a.drop_first(), seq![]) == Seq::<Seq<char>>::empty());
        assert(lines_from(a, cur) =~= seq![close_line(cur)]);
    } else {
        assert(a.drop_first().last() == a.last());
        if a[0] == '\n' {
            lemma_lines_from_concat(a.drop_first(), b, seq![]);
            assert(seq![close_line(cur)] + (lines_from(a.drop_first(), seq![]) + lines_from(b, seq![]))
                =~= seq![close_line(cur)] + lines_from(a.drop_first(), seq![]) + lines_from(b, seq![]));
        } else {
            lemma_lines_from_concat(a.drop_first(), b, cur.push(a[0]));
        }
    }
}

/// A line without a newline, ended by one, is one line.
pub proof fn lemma_lines_from_single(x: Seq<char>, cur: Seq<char>)
    requires
        !x.contains('\n'),
    ensures
        lines_from(x.push('\n'), cur) == seq![close_line(cur + x)],
    decreases x.len(),
{
    if x.len() == 0 {
        assert(x.push('\n') =~= seq!['\n']);
        assert(seq!['\n'].drop_first() =~= Seq::<char>::empty());
        assert(cur + x =~= cur);
        assert(lines_from(Seq::<char>::empty(), seq![]) == Seq::<Seq<char>>::empty());
        assert(lines_from(seq!['\n'], cur) =~= seq![close_line(cur)]);
    } else {
        assert(x.push('\n')[0] == x[0]);
        assert(x[0] != '\n') by {
            if x[0] == '\n' {
                assert(x.contains('\n'));
            }
        }
        assert(x.push('\n').drop_first() =~= x.drop_first().push('\n'));
        assert(!x.drop_first().contains('\n')) by {
            if x.drop_first().contains('\n') {
                let k = choose|k: int| 0 <= k < x.drop_first().len() && x.drop_first()[k] == '\n';
                assert(x[k + 1] == '\n');
            }
        }
        lemma_lines_from_single(x.drop_first(), cur.push(x[0]));
        assert(cur.push(x[0]) + x.drop_first() =~= cur + x);
    }
}

/// The lines of `a + x + "\n" + b`, where `a` is empty or ends with a newline
/// and `x` holds none, are those of `a`, then `x`, then those of `b`.
pub proof fn lemma_lines_insert(a: Seq<char>, x: Seq<char>, b: Seq<char>)
    requires
        a.len() == 0 || a.last() == '\n',
        !x.contains('\n'),
    ensures
        lines(a + x.push('\n') + b) == lines(a) + seq![close_line(x)] + lines(b),
        lines(a + b) == lines(a) + lines(b),
{
    let xl = x.push('\n');
    assert(xl.last() == '\n');
    lemma_lines_from_concat(xl, b, seq![]);
    lemma_lines_from_single(x, seq![]);
    assert(Seq::<char>::empty() + x =~= x);
    if a.len() == 0 {
        assert(a + xl + b =~= xl + b);
        assert(a + b =~= b);
        assert(lines(a) == Seq::<Seq<char>>::empty());
        assert(lines(a) + seq![close_line(x)] + lines(b) =~= seq![close_line(x)] + lines(b));
        assert(lines(a) + lines(b) =~= lines(b));
    } else {
        assert(a + xl + b =~= a + (xl + b));
        lemma_lines_from_concat(a, xl + b, seq![]);
        lemma_lines_from_concat(a, b, seq![]);
        assert(lines(a) + (seq![close_line(x)] + lines(b)) =~= lines(a) + seq![close_line(x)] + lines(b));
    }
}

/// The views of a sequence of character vectors.
pub open spec fn views(r: Seq<Vec<char>>) -> Seq<Seq<char>> {
    r.map_values(|l: Vec<char>| l@)
}

pub fn split_lines(v: &Vec<char>) -> (r: Vec<Vec<char>>)
    ensures
        views(r@) == lines(v@),
{
    let mut r: Vec<Vec<char>> = Vec::new();
    let mut cur: Vec<char> = Vec::new();
    let mut i: usize = 0;
    assert(v@.skip(0) =~= v@);
    while i < v.len()
        invariant
            i <= v.len(),
            lines(v@) == views(r@) + lines_from(v@.skip(i as int), cur@),
        decreases v.len() - i,
    {
        let c = v[i];
        assert(v@.skip(i as int).drop_first() =~= v@.skip(i + 1));
        if c == '\n' {
            let ghost old_r = r@;
            let ghost closed = close_line(cur@);
            if cur.len() > 0 && cur[cur.len() - 1] == '\r' {
                cur.pop();
            }
            assert(cur@ == closed);
            r.push(cur);
            cur = Vec::new();
            assert(views(r@) =~= views(old_r).push(closed));
            assert(views(old_r) + (seq![closed] + lines_from(v@.skip(i + 1), seq![])) =~= views(
                r@,
            ) + lines_from(v@.skip(i + 1), cur@));
        } else {
            cur.push(c);
        }
        i = i + 1;
    }
    let ghost old_r = r@;
    if cur.len() > 0 {
        r.push(cur);
        assert(views(r@) =~= views(old_r).push(cur@));
    }
    assert(views(r@) =~= lines(v@));
    r
}

/// The word in progress, as a sequence of zero or one words.
pub open spec fn pending_word(cur: Seq<char>) -> Seq<Seq<char>> {
    if cur.len() > 0 {
        seq![cur]
    } else {
        seq![]
    }
}

/// The words of `s`, where `cur` holds the part of a word read before `s`.
pub open spec fn words_from(s: Seq<char>, cur: Seq<char>) -> Seq<Seq<char>>
    decreases s.len(),
{
    if s.len() == 0 {
        pending_word(cur)
    } else if is_whitespace(s[0]) {
        pending_word(cur) + words_from(s.drop_first(), seq![])
    } else {
        words_from(s.drop_first(), cur.push(s[0]))
    }
}

/// The words of `s` as `str::split_whitespace` yields them: the maximal runs
/// of characters that are not whitespace.
pub open spec fn words(s: Seq<char>) -> Seq<Seq<char>> {
    words_from(s, seq![])
}

proof fn lemma_words_from_concat(a: Seq<char>, b: Seq<char>, cur: Seq<char>)
    requires
        a.len() > 0,
        is_whitespace(a.last()),
    ensures
        words_from(a + b, cur) == words_from(a, cur) + words_from(b, seq![]),
    decreases a.len(),
{
    assert((a + b)[0] == a[0]);
    assert((a + b).drop_first() =~= a.drop_first() + b);
    if a.len() == 1 {
        assert(a.drop_first() + b =~= b);
        assert(words_from(a.drop_first(), seq![]) == Seq::<Seq<char>>::empty());
        assert(words_from(a, cur) =~= pending_word(cur));
    } else {
        assert(a.drop_first().last() == a.last());
        if is_whitespace(a[0]) {
            lemma_words_from_concat(a.drop_first(), b, seq![]);
            assert(pending_word(cur) + (words_from(a.drop_first(), seq![]) + words_from(b, seq![]))
                =~= pending_word(cur) + words_from(a.drop_first(), seq![]) + words_from(b, seq![]));
        } else {
            lemma_words_from_concat(a.drop_first(), b, cur.push(a[0]));
        }
    }
}

/// Free of whitespace.
pub open spec fn no_whitespace(s: Seq<char>) -> bool {
    forall|i: int| 0 <= i < s.len() ==> !is_whitespace(#[trigger] s[i])
}

proof fn lemma_words_from_single(x: Seq<char>, cur: Seq<char>)
    requires
        no_whitespace(x),
    ensures
        words_from(x, cur) == pending_word(cur + x),
    decreases x.len(),
{
    if x.len() == 0 {
        assert(cur + x =~= cur);
    } else {
        assert(!is_whitespace(x[0]));
        assert forall|i: int| 0 <= i < x.drop_first().len() implies !is_whitespace(
            #[trigger] x.drop_first()[i],
        ) by {
            assert(x.drop_first()[i] == x[i + 1]);
        }
        lemma_words_from_single(x.drop_first(), cur.push(x[0]));
        assert(cur.push(x[0]) + x.drop_first() =~= cur + x);
    }
}

/// Words without whitespace, joined by single spaces, split back into those words.
pub proof fn lemma_words_of_three(x: Seq<char>, y: Seq<char>, z: Seq<char>)
    requires
        x.len() > 0,
        y.len() > 0,
        z.len() > 0,
        no_whitespace(x),
        no_whitespace(y),
        no_whitespace(z),
    ensures
        words(x + seq![' '] + y + seq![' '] + z) == seq![x, y, z],
{
    let s = x + seq![' '] + y + seq![' '] + z;
    let a = x + seq![' '];
    let b = y + seq![' '];
    assert(s =~= a + (b + z));
    assert(a.last() == ' ');
    assert(b.last() == ' ');
    lemma_words_from_concat(a, b + z, seq![]);
    lemma_words_from_concat(b, z, seq![]);
    assert(Seq::<char>::empty() + x =~= x);
    assert(Seq::<char>::empty() + y =~= y);
    assert(Seq::<char>::empty() + z =~= z);
    lemma_words_from_single(z, seq![]);
    assert(a =~= x.push(' '));
    assert(b =~= y.push(' '));
    lemma_words_from_space_end(x, seq![]);
    lemma_words_from_space_end(y, seq![]);
    lemma_words_from_single(x, seq![]);
    lemma_words_from_single(y, seq![]);
    assert(seq![x] + (seq![y] + seq![z]) =~= seq![x, y, z]);
}

proof fn lemma_words_from_space_end(x: Seq<char>, cur: Seq<char>)
    ensures
        words_from(x.push(' '), cur) == words_from(x, cur),
    decreases x.len(),
{
    let xs = x.push(' ');
    if x.len() == 0 {
        assert(xs[0] == ' ');
        assert(xs.drop_first() =~= Seq::<char>::empty());
        assert(words_from(Seq::<char>::empty(), seq![]) =~= Seq::<Seq<char>>::empty());
        assert(pending_word(cur) + Seq::<Seq<char>>::empty() =~= pending_word(cur));
    } else {
        assert(xs[0] == x[0]);
        assert(xs.drop_first() =~= x.drop_first().push(' '));
        if is_whitespace(x[0]) {
            lemma_words_from_space_end(x.drop_first(), seq![]);
        } else {
            lemma_words_from_space_end(x.drop_first(), cur.push(x[0]));
        }
    }
}

pub fn split_words(v: &Vec<char>) -> (r: Vec<Vec<char>>)
    ensures
        views(r@) == words(v@),
{
    let mut r: Vec<Vec<char>> = Vec::new();
    let mut cur: Vec<char> = Vec::new();
    let mut i: usize = 0;
    assert(v@.skip(0) =~= v@);
    while i < v.len()
        invariant
            i <= v.len(),
            words(v@) == views(r@) + words_from(v@.skip(i as int), cur@),
        decreases v.len() - i,
    {
        let c = v[i];
        assert(v@.skip(i as int).drop_first() =~= v@.skip(i + 1));
        if char_is_whitespace(c) {
            let ghost old_r = r@;
            let ghost word = cur@;
            if cur.len() > 0 {
                r.push(cur);
                assert(views(r@) =~= views(old_r).push(word));
            }
            cur = Vec::new();
            assert(views(old_r) + (pending_word(word) + words_from(v@.skip(i + 1), seq![]))
                =~= views(r@) + words_from(v@.skip(i + 1), cur@));
        } else {
            cur.push(c);
        }
        i = i + 1;
    }
    let ghost old_r = r@;
    if cur.len() > 0 {
        r.push(cur);
        assert(views(r@) =~= views(old_r).push(cur@));
    }
    assert(views(r@) =~= words(v@));
    r
}


pub open spec fn is_digit(c: char) -> bool {
    '0' <= c && c <= '9'
}

/// The value of a decimal digit character.
pub open spec fn digit_value(c: char) -> nat {
    (c as int - '0' as int) as nat
}

/// The value of a string of decimal digits, most significant first.
pub open spec fn digits_value(s: Seq<char>) -> nat
    decreases s.len(),
{
    if s.len() == 0 {
        0
    } else {
        digits_value(s.drop_last()) * 10 + digit_value(s.last())
    }
}

pub open spec fn all_digits(s: Seq<char>) -> bool {
    forall|i: int| 0 <= i < s.len() ==> is_digit(#[trigger] s[i])
}

/// The digits of an unsigned number: `s` without one leading `+`.
pub open spec fn unsigned_digits(s: Seq<char>) -> Seq<char> {
    if s.len() > 0 && s[0] == '+' {
        s.drop_first()
    } else {
        s
    }
}

/// What `u64::from_str` gives: an optional `+`, then one or more decimal
/// digits whose value fits in a `u64`.
pub open spec fn parse_u64(s: Seq<char>) -> Option<u64> {
    let d = unsigned_digits(s);
    if d.len() > 0 && all_digits(d) && digits_value(d) <= u64::MAX {
        Some(digits_value(d) as u64)
    } else {
        None
    }
}

proof fn lemma_digits_value_prefix(s: Seq<char>, k: int)
    requires
        0 <= k <= s.len(),
    ensures
        digits_value(s.take(k)) <= digits_value(s),
    decreases s.len(),
{
    if k < s.len() {
        lemma_digits_value_prefix(s.drop_last(), k);
        assert(s.drop_last().take(k) =~= s.take(k));
    } else {
        assert(s.take(k) =~= s);
    }
}

/// Parses `v@[from..to]` as `u64::from_str` does.
pub fn parse_u64_chars(v: &Vec<char>, from: usize, to: usize) -> (r: Option<u64>)
    requires
        from <= to <= v.len(),
    ensures
        r == parse_u64(v@.subrange(from as int, to as int)),
{
    let ghost s = v@.subrange(from as int, to as int);
    let mut start = from;
    if start < to && v[start] == '+' {
        start = start + 1;
    }
    let ghost d = v@.subrange(start as int, to as int);
    assert(d =~= unsigned_digits(s));
    if start == to {
        return None;
    }
    let mut value: u64 = 0;
    let mut i = start;
    while i < to
        invariant
            from <= start <= i <= to <= v.len(),
            s == v@.subrange(from as int, to as int),
            d == v@.subrange(start as int, to as int),
            d == unsigned_digits(s),
            d.len() > 0,
            all_digits(d.take(i - start)),
            value as nat == digits_value(d.take(i - start)),
        decreases to - i,
    {
        let c = v[i];
        assert(d.take(i + 1 - start).drop_last() =~= d.take(i - start));
        assert(d.take(i + 1 - start).last() == c);
        if c < '0' || c > '9' {
            assert(!is_digit(d[i - start]));
            return None;
        }
        let digit = (c as u32 - '0' as u32) as u64;
        let next: u128 = value as u128 * 10 + digit as u128;
        if next > u64::MAX as u128 {
            proof {
                lemma_digits_value_prefix(d, i + 1 - start);
            }
            return None;
        }
        value = next as u64;
        i = i + 1;
    }
    assert(d.take(to - start) =~= d);
    Some(value)
}

/// The decimal digit character for `d < 10`.
pub open spec fn digit_char(d: nat) -> char {
    if d == 0 {
        '0'
    } else if d == 1 {
        '1'
    } else if d == 2 {
        '2'
    } else if d == 3 {
        '3'
    } else if d == 4 {
        '4'
    } else if d == 5 {
        '5'
    } else if d == 6 {
        '6'
    } else if d == 7 {
        '7'
    } else if d == 8 {
        '8'
    } else {
        '9'
    }
}

/// The decimal representation of `n`, as `u64::to_string` writes it.
pub open spec fn decimal(n: nat) -> Seq<char>
    decreases n,
{
    if n < 10 {
        seq![digit_char(n)]
    } else {
        decimal(n / 10).push(digit_char(n % 10))
    }
}

fn digit_to_char(d: u64) -> (c: char)
    requires
        d < 10,
    ensures
        c == digit_char(d as nat),
{
    if d == 0 {
        '0'
    } else if d == 1 {
        '1'
    } else if d == 2 {
        '2'
    } else if d == 3 {
        '3'
    } else if d == 4 {
        '4'
    } else if d == 5 {
        '5'
    } else if d == 6 {
        '6'
    } else if d == 7 {
        '7'
    } else if d == 8 {
        '8'
    } else {
        '9'
    }
}

/// Appends the decimal representation of `n` to `s`.
pub fn push_decimal(s: &mut String, n: u64)
    ensures
        final(s)@ == old(s)@ + decimal(n as nat),
    decreases n,
{
    if n >= 10 {
        push_decimal(s, n / 10);
    }
    push_char(s, digit_to_char(n % 10));
    proof {
        if n >= 10 {
            assert(old(s)@ + decimal(n as nat) =~= old(s)@ + decimal((n / 10) as nat) + seq![
                digit_char((n % 10) as nat),
            ]);
        } else {
            assert(old(s)@ + decimal(n as nat) =~= old(s)@.push(digit_char(n as nat)));
        }
    }
}

/// The decimal string of `n`.
pub fn decimal_string(n: u64) -> (r: String)
    ensures
        r@ == decimal(n as nat),
{
    let mut r = String::new();
    push_decimal(&mut r, n);
    assert(r@ =~= decimal(n as nat));
    r
}

/// A decimal representation reads back as the number it represents.
pub proof fn lemma_parse_decimal(n: nat)
    requires
        n <= u64::MAX,
    ensures
        parse_u64(decimal(n)) == Some(n as u64),
{
    lemma_decimal_digits(n);
    assert(unsigned_digits(decimal(n)) == decimal(n)) by {
        assert(is_digit(decimal(n)[0]));
    }
}

proof fn lemma_digit_char_value(d: nat)
    requires
        d < 10,
    ensures
        is_digit(digit_char(d)),
        digit_value(digit_char(d)) == d,
{
}

/// A decimal representation is a non-empty string of digits whose value is
/// the number it represents.
pub proof fn lemma_decimal_digits(n: nat)
    ensures
        decimal(n).len() > 0,
        all_digits(decimal(n)),
        digits_value(decimal(n)) == n,
    decreases n,
{
    lemma_digit_char_value(n % 10);
    if n >= 10 {
        lemma_decimal_digits(n / 10);
        let d = decimal(n);
        assert(d.drop_last() =~= decimal(n / 10));
        assert(d.last() == digit_char(n % 10));
        assert(digits_value(d) == (n / 10) * 10 + n % 10);
        assert forall|i: int| 0 <= i < d.len() implies is_digit(#[trigger] d[i]) by {
            if i < d.len() - 1 {
                assert(d[i] == decimal(n / 10)[i]);
            }
        }
    } else {
        let d = decimal(n);
        assert(d.drop_last() =~= Seq::<char>::empty());
        assert(d.last() == digit_char(n));
        assert(digits_value(d.drop_last()) == 0);
        assert(digits_value(d) == digit_value(digit_char(n)));
    }
}

/// `10` to the power `k`.
pub open spec fn pow10(k: nat) -> nat
    decreases k,
{
    if k == 0 {
        1
    } else {
        10 * pow10((k - 1) as nat)
    }
}

/// A number below `10^k` has at most `k` decimal digits, all of them digits.
pub proof fn lemma_decimal_len(n: nat, k: nat)
    requires
        k >= 1,
        n < pow10(k),
    ensures
        decimal(n).len() <= k,
        all_digits(decimal(n)),
    decreases k,
{
    lemma_decimal_digits(n);
    if n >= 10 {
        let p = pow10((k - 1) as nat);
        assert(n / 10 < p) by (nonlinear_arith)
            requires
                n < 10 * p,
        ;
        assert(k - 1 >= 1) by {
            if k == 1 {
                assert(pow10(1) == 10 * pow10(0));
            }
        }
        lemma_decimal_len(n / 10, (k - 1) as nat);
    }
}

/// Whether two string slices hold the same characters.
pub fn str_eq(a: &str, b: &str) -> (r: bool)
    ensures
        r == (a@ == b@),
{
    let n = a.unicode_len();
    let m = b.unicode_len();
    if n != m {
        return false;
    }
    let mut i: usize = 0;
    while i < n
        invariant
            n == a@.len(),
            m == b@.len(),
            n == m,
            i <= n,
            forall|j: int| 0 <= j < i ==> a@[j] == b@[j],
        decreases n - i,
    {
        if a.get_char(i) != b.get_char(i) {
            return false;
        }
        i = i + 1;
    }
    assert(a@ =~= b@);
    true
}

/// Whether `v@[from..]` begins with the characters of `prefix`.
pub fn starts_with(v: &Vec<char>, prefix: &str) -> (r: bool)
    ensures
        r == prefix@.is_prefix_of(v@),
{
    let n = prefix.unicode_len();
    if n > v.len() {
        return false;
    }
    let mut i: usize = 0;
    while i < n
        invariant
            n == prefix@.len(),
            n <= v.len(),
            i <= n,
            forall|j: int| 0 <= j < i ==> prefix@[j] == v@[j],
        decreases n - i,
    {
        if prefix.get_char(i) != v[i] {
            return false;
        }
        i = i + 1;
    }
    assert(prefix@ =~= v@.take(n as int));
    true
}


/// The characters of an optional string.
pub open spec fn opt_view(o: Option<String>) -> Option<Seq<char>> {
    match o {
        Some(s) => Some(s@),
        None => None,
    }
}

/// An owned copy of a string slice.
pub fn owned(s: &str) -> (r: String)
    ensures
        r@ == s@,
{
    s.to_owned()
}

} // verus!
