//! Character classes and string helpers used by the command parser and the log codec.

use vstd::prelude::*;

verus! {

/// Unicode `White_Space` property, the class `char::is_whitespace` tests.
pub open spec fn is_ws(c: char) -> bool {
    let u = c as u32;
    ||| 0x09 <= u <= 0x0D
    ||| u == 0x20
    ||| u == 0x85
    ||| u == 0xA0
    ||| u == 0x1680
    ||| 0x2000 <= u <= 0x200A
    ||| u == 0x2028
    ||| u == 0x2029
    ||| u == 0x202F
    ||| u == 0x205F
    ||| u == 0x3000
}

/// Unicode general category `Cc`, the class `char::is_control` tests.
pub open spec fn is_control(c: char) -> bool {
    let u = c as u32;
    u <= 0x1F || (0x7F <= u <= 0x9F)
}

/// Whether `c` is white space.
pub fn char_is_whitespace(c: char) -> (r: bool)
    ensures
        r == is_ws(c),
{
    let u = c as u32;
    (0x09 <= u && u <= 0x0D) || u == 0x20 || u == 0x85 || u == 0xA0 || u == 0x1680 || (0x2000
        <= u && u <= 0x200A) || u == 0x2028 || u == 0x2029 || u == 0x202F || u == 0x205F || u
        == 0x3000
}

/// Whether `c` is a control character.
pub fn char_is_control(c: char) -> (r: bool)
    ensures
        r == is_control(c),
{
    let u = c as u32;
    u <= 0x1F || (0x7F <= u && u <= 0x9F)
}


/// What `sanitize_input` keeps of `s`: every character that is not a control character, in order.
pub open spec fn without_controls(s: Seq<char>) -> Seq<char>
    decreases s.len(),
{
    if s.len() == 0 {
        seq![]
    } else {
        let r = without_controls(s.drop_last());
        if is_control(s.last()) {
            r
        } else {
            r.push(s.last())
        }
    }
}

/// Appends one character to a string (`String::push`).
#[verifier::external_body]
pub(crate) fn push_char(s: &mut String, c: char)
    ensures
        final(s)@ == old(s)@.push(c),
{
    s.push(c);
}

/// The views of a sequence of strings.
pub open spec fn string_views(v: Seq<String>) -> Seq<Seq<char>> {
    v.map_values(|t: String| t@)
}

/// The non-empty runs of non-white-space characters of `s`, left to right
/// (what `str::split_whitespace` yields).
pub open spec fn ws_tokens(s: Seq<char>) -> Seq<Seq<char>>
    decreases s.len(),
{
    if s.len() == 0 {
        seq![]
    } else {
        let prev = ws_tokens(s.drop_last());
        let c = s.last();
        if is_ws(c) {
            prev
        } else if s.len() >= 2 && !is_ws(s[s.len() - 2]) {
            prev.drop_last().push(prev.last().push(c))
        } else {
            prev.push(seq![c])
        }
    }
}

/// Splits `s` at white space, dropping empty pieces.
pub fn split_whitespace(s: &str) -> (r: Vec<String>)
    ensures
        string_views(r@) == ws_tokens(s@),
{
    broadcast use vstd::string::group_string_axioms;
    let mut toks: Vec<String> = Vec::new();
    let mut cur = String::new();
    let mut in_tok = false;
    for c in it: s.chars()
        invariant
            it.seq() == s@,
            it.index() <= s@.len(),
            in_tok == (it.index() > 0 && !is_ws(s@[it.index() - 1])),
            in_tok ==> ws_tokens(s@.take(it.index() as int)) == string_views(toks@).push(cur@),
            !in_tok ==> ws_tokens(s@.take(it.index() as int)) == string_views(toks@),
            !in_tok ==> cur@ == Seq::<char>::empty(),
    {
        let ghost pre = s@.take(it.index() as int);
        proof {
            assert(s@.take(it.index() + 1).drop_last() == pre);
            assert(s@.take(it.index() + 1).last() == c);
        }
        if char_is_whitespace(c) {
            if in_tok {
                let ghost before = toks@;
                toks.push(cur);
                cur = String::new();
                in_tok = false;
                assert(string_views(toks@) =~= string_views(before).push(toks@.last()@));
            }
        } else {
            push_char(&mut cur, c);
            in_tok = true;
        }
    }
    if in_tok {
        let ghost before = toks@;
        toks.push(cur);
        assert(string_views(toks@) =~= string_views(before).push(toks@.last()@));
    }
    proof {
        assert(s@.take(s@.len() as int) == s@);
    }
    toks
}


/// `s` without its leading white space.
pub open spec fn trim_start(s: Seq<char>) -> Seq<char>
    decreases s.len(),
{
    if s.len() > 0 && is_ws(s[0]) {
        trim_start(s.drop_first())
    } else {
        s
    }
}

/// `s` without its trailing white space.
pub open spec fn trim_end(s: Seq<char>) -> Seq<char>
    decreases s.len(),
{
    if s.len() > 0 && is_ws(s.last()) {
        trim_end(s.drop_last())
    } else {
        s
    }
}

/// `s` without leading and trailing white space (what `str::trim` gives).
pub open spec fn trim(s: Seq<char>) -> Seq<char> {
    trim_end(trim_start(s))
}

/// The characters of `s`, one by one.
pub fn chars_of(s: &str) -> (r: Vec<char>)
    ensures
        r@ == s@,
{
    broadcast use vstd::string::group_string_axioms;
    let mut out: Vec<char> = Vec::new();
    for c in it: s.chars()
        invariant
            it.seq() == s@,
            out@ == s@.take(it.index() as int),
    {
        out.push(c);
        assert(out@ =~= s@.take(it.index() + 1));
    }
    assert(s@.take(s@.len() as int) == s@);
    out
}

/// The string made of `v[from..to]`.
pub fn string_from_range(v: &Vec<char>, from: usize, to: usize) -> (r: String)
    requires
        from <= to <= v.len(),
    ensures
        r@ == v@.subrange(from as int, to as int),
{
    let mut out = String::new();
    let mut i = from;
    while i < to
        invariant
            from <= i <= to <= v.len(),
            out@ == v@.subrange(from as int, i as int),
        decreases to - i,
    {
        push_char(&mut out, v[i]);
        i = i + 1;
        assert(out@ =~= v@.subrange(from as int, i as int));
    }
    out
}

/// Removes leading and trailing white space from `s`.
pub fn trim_whitespace(s: &str) -> (r: String)
    ensures
        r@ == trim(s@),
{
    let v = chars_of(s);
    let n = v.len();
    let mut a: usize = 0;
    assert(v@.subrange(0, n as int) == s@);
    while a < n && char_is_whitespace(v[a])
        invariant
            a <= n == v.len(),
            v@ == s@,
            trim_start(s@) == trim_start(v@.subrange(a as int, n as int)),
        decreases n - a,
    {
        assert(v@.subrange(a as int, n as int).drop_first() =~= v@.subrange(a + 1, n as int));
        a = a + 1;
    }
    assert(trim_start(s@) == v@.subrange(a as int, n as int));
    let mut b: usize = n;
    while b > a && char_is_whitespace(v[b - 1])
        invariant
            a <= b <= n == v.len(),
            v@ == s@,
            trim(s@) == trim_end(v@.subrange(a as int, b as int)),
        decreases b - a,
    {
        assert(v@.subrange(a as int, b as int).drop_last() =~= v@.subrange(a as int, b - 1));
        b = b - 1;
    }
    string_from_range(&v, a, b)
}

/// The name for what `str::to_uppercase` returns for a string: its
/// full Unicode uppercase mapping.
pub uninterp spec fn uppercase(s: Seq<char>) -> Seq<char>;

/// Every character is ASCII.
pub open spec fn all_ascii(s: Seq<char>) -> bool {
    forall|i: int| 0 <= i < s.len() ==> (#[trigger] s[i] as u32) < 128
}

/// The upper-case form of an ASCII character: `a`..`z` become `A`..`Z`.
pub open spec fn ascii_upper(c: char) -> char {
    if 97 <= (c as u32) <= 122 {
        ((c as u32) - 32) as char
    } else {
        c
    }
}

/// A word in upper case: letter by letter for an ASCII word, else by the
/// Unicode mapping that `str::to_uppercase` applies.
pub open spec fn upper_word(s: Seq<char>) -> Seq<char> {
    if all_ascii(s) {
        s.map_values(|c: char| ascii_upper(c))
    } else {
        uppercase(s)
    }
}

/// `str::to_uppercase`: the string mapped to upper case by the Unicode
/// case tables.  Its result is taken as the named value `uppercase(s@)`; of
/// an ASCII string it is also stated that the mapping goes letter by letter,
/// `a`..`z` to `A`..`Z`, every other character unchanged (the Unicode upper
/// case of an ASCII character).
#[verifier::external_body]
pub(crate) fn to_uppercase(s: &str) -> (r: String)
    ensures
        r@ == uppercase(s@),
        all_ascii(s@) ==> r@ == s@.map_values(|c: char| ascii_upper(c)),
{
    s.to_uppercase()
}


/// Lexicographic order by code point: the order of `str`'s `Ord`
/// (UTF-8 byte order and code-point order agree).
pub open spec fn lex_lt(a: Seq<char>, b: Seq<char>) -> bool
    decreases a.len(),
{
    if a.len() == 0 {
        b.len() > 0
    } else if b.len() == 0 {
        false
    } else if a[0] != b[0] {
        (a[0] as u32) < (b[0] as u32)
    } else {
        lex_lt(a.drop_first(), b.drop_first())
    }
}

/// Every element is below every later one.
pub open spec fn strictly_sorted(s: Seq<Seq<char>>) -> bool {
    forall|i: int, j: int| 0 <= i < j < s.len() ==> lex_lt(#[trigger] s[i], #[trigger] s[j])
}

pub proof fn lemma_lex_total(a: Seq<char>, b: Seq<char>)
    requires
        a != b,
    ensures
        lex_lt(a, b) || lex_lt(b, a),
    decreases a.len(),
{
    if a.len() > 0 && b.len() > 0 && a[0] == b[0] {
        if a.drop_first() == b.drop_first() {
            assert(a =~= seq![a[0]] + a.drop_first());
            assert(b =~= seq![b[0]] + b.drop_first());
        }
        lemma_lex_total(a.drop_first(), b.drop_first());
    } else if a.len() == 0 && b.len() == 0 {
        assert(a =~= b);
    } else if a.len() > 0 && b.len() > 0 {
        vstd::utf8::char_u32_cast(a[0], a[0] as u32);
        vstd::utf8::char_u32_cast(b[0], b[0] as u32);
        assert((a[0] as u32) != (b[0] as u32));
    }
}

pub proof fn lemma_lex_transitive(a: Seq<char>, b: Seq<char>, c: Seq<char>)
    requires
        lex_lt(a, b),
        lex_lt(b, c),
    ensures
        lex_lt(a, c),
    decreases a.len(),
{
    if a.len() > 0 && b.len() > 0 && c.len() > 0 && a[0] == b[0] && b[0] == c[0] {
        lemma_lex_transitive(a.drop_first(), b.drop_first(), c.drop_first());
    }
}

/// Whether `a` comes before `b` in lexicographic order.
pub fn lex_less(a: &Vec<char>, b: &Vec<char>) -> (r: bool)
    ensures
        r == lex_lt(a@, b@),
{
    let mut i: usize = 0;
    assert(a@.skip(0) =~= a@);
    assert(b@.skip(0) =~= b@);
    while i < a.len() && i < b.len()
        invariant
            i <= a.len(),
            i <= b.len(),
            lex_lt(a@, b@) == lex_lt(a@.skip(i as int), b@.skip(i as int)),
        decreases a.len() - i,
    {
        if a[i] != b[i] {
            assert(a@.skip(i as int)[0] == a@[i as int]);
            assert(b@.skip(i as int)[0] == b@[i as int]);
            return (a[i] as u32) < (b[i] as u32);
        }
        assert(a@.skip(i as int).drop_first() =~= a@.skip(i + 1));
        assert(b@.skip(i as int).drop_first() =~= b@.skip(i + 1));
        i = i + 1;
    }
    a.len() < b.len()
}


/// The views of a sequence of string slices.
pub open spec fn str_views(v: Seq<&str>) -> Seq<Seq<char>> {
    v.map_values(|t: &str| t@)
}

/// Inserting an element at the place where it fits keeps a sequence strictly sorted.
pub proof fn lemma_insert_sorted(s: Seq<Seq<char>>, j: int, x: Seq<char>)
    requires
        strictly_sorted(s),
        0 <= j <= s.len(),
        forall|t: int| 0 <= t < j ==> lex_lt(#[trigger] s[t], x),
        j < s.len() ==> lex_lt(x, s[j]),
    ensures
        strictly_sorted(s.insert(j, x)),
{
    let s2 = s.insert(j, x);
    assert forall|a: int, b: int| 0 <= a < b < s2.len() implies lex_lt(
        #[trigger] s2[a],
        #[trigger] s2[b],
    ) by {
        if a < j && b < j {
            assert(s2[a] == s[a] && s2[b] == s[b]);
        } else if a < j && b == j {
            assert(s2[a] == s[a]);
        } else if a < j && b > j {
            assert(s2[a] == s[a] && s2[b] == s[b - 1]);
        } else if a == j {
            assert(s2[b] == s[b - 1]);
            if b - 1 > j {
                lemma_lex_transitive(x, s[j], s[b - 1]);
            }
        } else {
            assert(s2[a] == s[a - 1] && s2[b] == s[b - 1]);
        }
    }
}


/// A string that ends in a character other than white space has a last word.
pub proof fn lemma_tokens_nonempty(s: Seq<char>)
    requires
        s.len() > 0,
        !is_ws(s.last()),
    ensures
        ws_tokens(s).len() > 0,
{
}

/// No word holds white space.
pub proof fn lemma_tokens_have_no_ws(s: Seq<char>)
    ensures
        forall|i: int, j: int|
            0 <= i < ws_tokens(s).len() && 0 <= j < ws_tokens(s)[i].len() ==> !is_ws(
                #[trigger] ws_tokens(s)[i][j],
            ),
    decreases s.len(),
{
    if s.len() > 0 {
        let pre = s.drop_last();
        lemma_tokens_have_no_ws(pre);
        let prev = ws_tokens(pre);
        let c = s.last();
        let toks = ws_tokens(s);
        if !is_ws(c) && s.len() >= 2 && !is_ws(s[s.len() - 2]) {
            assert(pre.last() == s[s.len() - 2]);
            lemma_tokens_nonempty(pre);
            assert forall|i: int, j: int|
                0 <= i < toks.len() && 0 <= j < toks[i].len() implies !is_ws(
                #[trigger] toks[i][j],
            ) by {
                if i < toks.len() - 1 {
                    assert(toks[i] == prev[i]);
                } else if j < toks[i].len() - 1 {
                    assert(toks[i][j] == prev[prev.len() - 1][j]);
                }
            }
        } else if !is_ws(c) {
            assert forall|i: int, j: int|
                0 <= i < toks.len() && 0 <= j < toks[i].len() implies !is_ws(
                #[trigger] toks[i][j],
            ) by {
                if i < toks.len() - 1 {
                    assert(toks[i] == prev[i]);
                }
            }
        }
    }
}

/// What `sanitize_input` keeps are characters of its input, none of them a control character.
pub proof fn lemma_without_controls(t: Seq<char>)
    ensures
        forall|j: int|
            0 <= j < without_controls(t).len() ==> !is_control(#[trigger] without_controls(t)[j])
                && t.contains(without_controls(t)[j]),
    decreases t.len(),
{
    if t.len() > 0 {
        let pre = t.drop_last();
        lemma_without_controls(pre);
        let w = without_controls(t);
        assert forall|j: int| 0 <= j < w.len() implies !is_control(#[trigger] w[j]) && t.contains(
            w[j],
        ) by {
            if j < without_controls(pre).len() {
                assert(w[j] == without_controls(pre)[j]);
                let q = choose|q: int| 0 <= q < pre.len() && pre[q] == w[j];
                assert(t[q] == w[j]);
            } else {
                assert(w[j] == t.last());
                assert(t[t.len() - 1] == w[j]);
            }
        }
    }
}


/// Removing control characters twice removes no more than once.
pub proof fn lemma_without_controls_idempotent(t: Seq<char>)
    ensures
        without_controls(without_controls(t)) == without_controls(t),
    decreases t.len(),
{
    if t.len() > 0 {
        lemma_without_controls_idempotent(t.drop_last());
        let w = without_controls(t.drop_last());
        if !is_control(t.last()) {
            assert(w.push(t.last()).drop_last() =~= w);
        }
    }
}


/// A word is its own only word.
pub proof fn lemma_tokens_of_word(a: Seq<char>)
    requires
        a.len() > 0,
        forall|i: int| 0 <= i < a.len() ==> !is_ws(#[trigger] a[i]),
    ensures
        ws_tokens(a) == seq![a],
    decreases a.len(),
{
    let pre = a.drop_last();
    assert(!is_ws(a[a.len() - 1]));
    if pre.len() == 0 {
        assert(ws_tokens(pre) =~= Seq::<Seq<char>>::empty());
        assert(seq![a.last()] =~= a);
    } else {
        assert forall|i: int| 0 <= i < pre.len() implies !is_ws(#[trigger] pre[i]) by {
            assert(pre[i] == a[i]);
        }
        lemma_tokens_of_word(pre);
        assert(!is_ws(a[a.len() - 2]));
        assert(pre.push(a.last()) =~= a);
        assert(ws_tokens(a) =~= seq![a]);
    }
}

/// Words do not run across a white-space boundary: when `a` ends, or `b`
/// starts, with white space, the words of `a + b` are those of `a`, then those of `b`.
pub proof fn lemma_tokens_concat(a: Seq<char>, b: Seq<char>)
    requires
        a.len() == 0 || b.len() == 0 || is_ws(a.last()) || is_ws(b[0]),
    ensures
        ws_tokens(a + b) == ws_tokens(a) + ws_tokens(b),
    decreases b.len(),
{
    if b.len() == 0 {
        assert(a + b =~= a);
        assert(ws_tokens(a) + ws_tokens(b) =~= ws_tokens(a));
    } else {
        let b2 = b.drop_last();
        let c = b.last();
        if b2.len() > 0 {
            assert(b2[0] == b[0]);
        }
        lemma_tokens_concat(a, b2);
        let ab = a + b;
        assert(ab.drop_last() =~= a + b2);
        assert(ab.last() == c);
        let big_a = ws_tokens(a);
        let big_b2 = ws_tokens(b2);
        if is_ws(c) {
        } else if b2.len() > 0 && !is_ws(b2.last()) {
            assert(ab[ab.len() - 2] == b2.last());
            assert(b[b.len() - 2] == b2.last());
            lemma_tokens_nonempty(b2);
            assert((big_a + big_b2).drop_last() =~= big_a + big_b2.drop_last());
            assert((big_a + big_b2).last() == big_b2.last());
            assert(ws_tokens(ab) =~= big_a + big_b2.drop_last().push(big_b2.last().push(c)));
        } else {
            if b2.len() > 0 {
                assert(ab[ab.len() - 2] == b2.last());
                assert(b[b.len() - 2] == b2.last());
            } else if a.len() > 0 {
                assert(ab[ab.len() - 2] == a.last());
                assert(b[0] == c);
            }
            assert(ws_tokens(ab) =~= (big_a + big_b2).push(seq![c]));
            assert(ws_tokens(b) =~= big_b2.push(seq![c]));
        }
    }
}


// ---------------------------------------------------------------- laws of the order and of sanitizing

/// A proper prefix comes before every longer string it begins.
pub proof fn lemma_lex_prefix_first(a: Seq<char>, s: Seq<char>)
    requires
        s.len() > 0,
    ensures
        lex_lt(a, a + s),
    decreases a.len(),
{
    if a.len() > 0 {
        assert((a + s)[0] == a[0]);
        assert((a + s).drop_first() =~= a.drop_first() + s);
        lemma_lex_prefix_first(a.drop_first(), s);
    } else {
        assert(a + s =~= s);
    }
}

/// At the first position where two strings differ, the one with the smaller
/// code point there comes first.
pub proof fn lemma_lex_first_difference(a: Seq<char>, b: Seq<char>, i: int)
    requires
        0 <= i < a.len(),
        i < b.len(),
        a.take(i) == b.take(i),
        (a[i] as u32) < (b[i] as u32),
    ensures
        lex_lt(a, b),
    decreases i,
{
    if i == 0 {
        assert(a[0] != b[0]);
    } else {
        assert(a.take(i)[0] == a[0]);
        assert(b.take(i)[0] == b[0]);
        assert(a[0] == b[0]);
        assert(a.drop_first().take(i - 1) =~= a.take(i).drop_first());
        assert(b.drop_first().take(i - 1) =~= b.take(i).drop_first());
        lemma_lex_first_difference(a.drop_first(), b.drop_first(), i - 1);
    }
}

/// Of two strings at most one comes before the other.
pub proof fn lemma_lex_asymmetric(a: Seq<char>, b: Seq<char>)
    requires
        lex_lt(a, b),
    ensures
        !lex_lt(b, a),
    decreases a.len(),
{
    if a.len() > 0 && b.len() > 0 && a[0] == b[0] {
        lemma_lex_asymmetric(a.drop_first(), b.drop_first());
    }
}

proof fn lemma_without_controls_is_filter(s: Seq<char>, keep: spec_fn(char) -> bool)
    requires
        forall|c: char| #[trigger] keep(c) == !is_control(c),
    ensures
        without_controls(s) == s.filter(keep),
    decreases s.len(),
{
    reveal(Seq::filter);
    if s.len() > 0 {
        lemma_without_controls_is_filter(s.drop_last(), keep);
        assert(keep(s.last()) == !is_control(s.last()));
    } else {
        assert(without_controls(s) =~= s.filter(keep));
    }
}

/// Sanitizing keeps exactly the characters outside the control ranges
/// U+0000..U+001F and U+007F..U+009F, in their order.
pub proof fn lemma_sanitize_filters_control_ranges(s: Seq<char>)
    ensures
        without_controls(s) == s.filter(
            |c: char| !((c as u32) <= 0x1F || (0x7F <= (c as u32) && (c as u32) <= 0x9F)),
        ),
{
    let keep = |c: char| !((c as u32) <= 0x1F || (0x7F <= (c as u32) && (c as u32) <= 0x9F));
    assert forall|c: char| #[trigger] keep(c) == !is_control(c) by {}
    lemma_without_controls_is_filter(s, keep);
}

/// A text without control characters is left as it is by sanitizing.
pub proof fn lemma_sanitize_keeps_plain_text(s: Seq<char>)
    requires
        forall|i: int|
            0 <= i < s.len() ==> (#[trigger] s[i] as u32) > 0x1F && !(0x7F <= (s[i] as u32) <= 0x9F),
    ensures
        without_controls(s) == s,
    decreases s.len(),
{
    if s.len() > 0 {
        let pre = s.drop_last();
        assert forall|i: int| 0 <= i < pre.len() implies (#[trigger] pre[i] as u32) > 0x1F && !(0x7F
            <= (pre[i] as u32) <= 0x9F) by {
            assert(pre[i] == s[i]);
        }
        lemma_sanitize_keeps_plain_text(pre);
        assert(s[s.len() - 1] == s.last());
        assert(pre.push(s.last()) =~= s);
    }
}

} // verus!
