//! Character-level helpers: Unicode whitespace, splitting a line into
//! whitespace-separated fields, and the decimal notation accepted for
//! the numeric fields.
use vstd::prelude::*;

verus! {

/// The Unicode `White_Space` property, the set of characters that
/// `char::is_whitespace` accepts.
pub open spec fn is_whitespace(c: char) -> bool {
    let n = c as u32;
    ||| 0x09 <= n <= 0x0d
    ||| n == 0x20
    ||| n == 0x85
    ||| n == 0xa0
    ||| n == 0x1680
    ||| 0x2000 <= n <= 0x200a
    ||| n == 0x2028
    ||| n == 0x2029
    ||| n == 0x202f
    ||| n == 0x205f
    ||| n == 0x3000
}

/// Whether `c` is a Unicode whitespace character.
pub fn whitespace(c: char) -> (b: bool)
    ensures
        b == is_whitespace(c),
{
    let n = c as u32;
    (0x09 <= n && n <= 0x0d) || n == 0x20 || n == 0x85 || n == 0xa0 || n == 0x1680 || (0x2000
        <= n && n <= 0x200a) || n == 0x2028 || n == 0x2029 || n == 0x202f || n == 0x205f || n
        == 0x3000
}

/// Length of the run of non-whitespace characters that starts `s`.
pub open spec fn run_len(s: Seq<char>) -> nat
    decreases s.len(),
{
    if s.len() == 0 || is_whitespace(s[0]) {
        0
    } else {
        1 + run_len(s.drop_first())
    }
}

pub proof fn lemma_run_len_bound(s: Seq<char>)
    ensures
        run_len(s) <= s.len(),
        s.len() > 0 && !is_whitespace(s[0]) ==> run_len(s) >= 1,
    decreases s.len(),
{
    if s.len() > 0 && !is_whitespace(s[0]) {
        lemma_run_len_bound(s.drop_first());
    }
}

/// The whitespace-separated fields of `s`, in order: its maximal runs
/// of non-whitespace characters.
pub open spec fn fields(s: Seq<char>) -> Seq<Seq<char>>
    decreases s.len(),
{
    if s.len() == 0 {
        seq![]
    } else if is_whitespace(s[0]) {
        fields(s.drop_first())
    } else {
        proof {
            lemma_run_len_bound(s);
        }
        seq![s.take(run_len(s) as int)] + fields(s.skip(run_len(s) as int))
    }
}

/// Every character of a field is not whitespace, and no field is empty.
pub proof fn lemma_fields_shape(s: Seq<char>)
    ensures
        forall|k: int|
            0 <= k < fields(s).len() ==> #[trigger] fields(s)[k].len() > 0 && forall|j: int|
                0 <= j < fields(s)[k].len() ==> !is_whitespace(#[trigger] fields(s)[k][j]),
    decreases s.len(),
{
    if s.len() == 0 {
    } else if is_whitespace(s[0]) {
        lemma_fields_shape(s.drop_first());
        assert(fields(s) == fields(s.drop_first()));
    } else {
        lemma_run_len_bound(s);
        lemma_run_prefix(s);
        lemma_fields_shape(s.skip(run_len(s) as int));
        let head = s.take(run_len(s) as int);
        let rest = fields(s.skip(run_len(s) as int));
        assert(fields(s) == seq![head] + rest);
        assert forall|k: int| 0 <= k < fields(s).len() implies #[trigger] fields(s)[k].len()
            > 0 && forall|j: int|
            0 <= j < fields(s)[k].len() ==> !is_whitespace(#[trigger] fields(s)[k][j]) by {
            if k == 0 {
                assert(fields(s)[k] == head);
                assert forall|j: int| 0 <= j < head.len() implies !is_whitespace(
                    #[trigger] head[j],
                ) by {
                    assert(head[j] == s[j]);
                }
            } else {
                assert(fields(s)[k] == rest[k - 1]);
            }
        }
    }
}

/// The first `run_len(s)` characters of `s` are not whitespace.
pub proof fn lemma_run_prefix(s: Seq<char>)
    ensures
        forall|j: int| 0 <= j < run_len(s) ==> !is_whitespace(#[trigger] s[j]),
    decreases s.len(),
{
    lemma_run_len_bound(s);
    if s.len() > 0 && !is_whitespace(s[0]) {
        lemma_run_prefix(s.drop_first());
        assert forall|j: int| 0 <= j < run_len(s) implies !is_whitespace(#[trigger] s[j]) by {
            if j > 0 {
                assert(s[j] == s.drop_first()[j - 1]);
            }
        }
    }
}

/// The decimal digit `d`.
pub open spec fn digit_char(d: nat) -> char {
    (d + 0x30) as char
}

/// `n` written in decimal, without sign or leading zeros.
pub open spec fn decimal_text(n: nat) -> Seq<char>
    decreases n,
{
    if n < 10 {
        seq![digit_char(n)]
    } else {
        decimal_text(n / 10).push(digit_char(n % 10))
    }
}

/// The first `w.len()` characters of `w + rest` form one run when `w` has
/// no whitespace.
pub proof fn lemma_run_len_append(w: Seq<char>, rest: Seq<char>)
    requires
        forall|i: int| 0 <= i < w.len() ==> !is_whitespace(#[trigger] w[i]),
    ensures
        run_len(w + rest) == w.len() + run_len(rest),
    decreases w.len(),
{
    if w.len() > 0 {
        assert((w + rest)[0] == w[0]);
        assert((w + rest).drop_first() == w.drop_first() + rest);
        assert forall|i: int| 0 <= i < w.drop_first().len() implies !is_whitespace(
            #[trigger] w.drop_first()[i],
        ) by {
            assert(w.drop_first()[i] == w[i + 1]);
        }
        lemma_run_len_append(w.drop_first(), rest);
    } else {
        assert(w + rest == rest);
    }
}

/// A word without whitespace, followed by nothing or by whitespace, is
/// the first field.
pub proof fn lemma_fields_word(w: Seq<char>, rest: Seq<char>)
    requires
        w.len() > 0,
        forall|i: int| 0 <= i < w.len() ==> !is_whitespace(#[trigger] w[i]),
        rest.len() == 0 || is_whitespace(rest[0]),
    ensures
        fields(w + rest) == seq![w] + fields(rest),
{
    let s = w + rest;
    lemma_run_len_append(w, rest);
    assert(run_len(rest) == 0);
    assert(s[0] == w[0]);
    assert(s.take(w.len() as int) == w);
    assert(s.skip(w.len() as int) == rest);
}

/// A leading space starts no field.
pub proof fn lemma_fields_space(rest: Seq<char>)
    ensures
        fields(seq![' '] + rest) == fields(rest),
{
    let s = seq![' '] + rest;
    assert(is_whitespace(s[0]));
    assert(s.drop_first() == rest);
}

/// A line made of whitespace only (or nothing at all).
pub open spec fn is_blank(line: Seq<char>) -> bool {
    forall|i: int| 0 <= i < line.len() ==> is_whitespace(#[trigger] line[i])
}

/// A line has no fields exactly when it is blank.
pub proof fn lemma_no_fields_iff_blank(s: Seq<char>)
    ensures
        fields(s).len() == 0 <==> is_blank(s),
    decreases s.len(),
{
    if s.len() > 0 {
        if is_whitespace(s[0]) {
            lemma_no_fields_iff_blank(s.drop_first());
            assert(is_blank(s) <==> is_blank(s.drop_first())) by {
                if is_blank(s.drop_first()) {
                    assert forall|i: int| 0 <= i < s.len() implies is_whitespace(#[trigger] s[i]) by {
                        if i > 0 {
                            assert(s[i] == s.drop_first()[i - 1]);
                        }
                    }
                }
                if is_blank(s) {
                    assert forall|i: int| 0 <= i < s.drop_first().len() implies is_whitespace(
                        #[trigger] s.drop_first()[i],
                    ) by {
                        assert(s.drop_first()[i] == s[i + 1]);
                    }
                }
            }
        } else {
            lemma_run_len_bound(s);
            assert(fields(s).len() > 0);
        }
    }
}

/// Whether `c` has the Unicode `White_Space` property, written out one
/// character at a time: tab, line feed, line tabulation, form feed,
/// carriage return, space, next line, no-break space, ogham space mark,
/// the eleven spaces from en quad to hair space, line separator,
/// paragraph separator, narrow no-break space, medium mathematical space
/// and ideographic space.
pub open spec fn white_space_char(c: char) -> bool {
    ||| c == '\t'
    ||| c == '\n'
    ||| c == '\u{0b}'
    ||| c == '\u{0c}'
    ||| c == '\r'
    ||| c == ' '
    ||| c == '\u{85}'
    ||| c == '\u{a0}'
    ||| c == '\u{1680}'
    ||| c == '\u{2000}'
    ||| c == '\u{2001}'
    ||| c == '\u{2002}'
    ||| c == '\u{2003}'
    ||| c == '\u{2004}'
    ||| c == '\u{2005}'
    ||| c == '\u{2006}'
    ||| c == '\u{2007}'
    ||| c == '\u{2008}'
    ||| c == '\u{2009}'
    ||| c == '\u{200a}'
    ||| c == '\u{2028}'
    ||| c == '\u{2029}'
    ||| c == '\u{202f}'
    ||| c == '\u{205f}'
    ||| c == '\u{3000}'
}

/// A character separates fields exactly when it has the Unicode
/// `White_Space` property, the set that `char::is_whitespace` accepts; in
/// particular the carriage return and line feed of a line ending do.
pub proof fn law_whitespace_is_unicode_white_space(c: char)
    ensures
        is_whitespace(c) <==> white_space_char(c),
        is_whitespace('\r'),
        is_whitespace('\n'),
{
}

/// A run of non-whitespace stops where whitespace begins: text that
/// starts with whitespace does not lengthen the first run.
pub proof fn lemma_run_len_stops_at_whitespace(l: Seq<char>, w: Seq<char>)
    requires
        w.len() == 0 || is_whitespace(w[0]),
    ensures
        run_len(l + w) == run_len(l),
    decreases l.len(),
{
    if l.len() == 0 {
        assert(l + w == w);
    } else {
        assert((l + w)[0] == l[0]);
        if !is_whitespace(l[0]) {
            assert((l + w).drop_first() == l.drop_first() + w);
            lemma_run_len_stops_at_whitespace(l.drop_first(), w);
        }
    }
}

/// Whitespace after a line adds no field and changes none.
pub proof fn law_trailing_whitespace_is_ignored(l: Seq<char>, w: Seq<char>)
    requires
        is_blank(w),
    ensures
        fields(l + w) == fields(l),
    decreases l.len(),
{
    if l.len() == 0 {
        assert(l + w == w);
        lemma_no_fields_iff_blank(w);
        assert(fields(w) == Seq::<Seq<char>>::empty());
    } else {
        let s = l + w;
        assert(s[0] == l[0]);
        if is_whitespace(l[0]) {
            assert(s.drop_first() == l.drop_first() + w);
            law_trailing_whitespace_is_ignored(l.drop_first(), w);
        } else {
            if w.len() > 0 {
                assert(is_whitespace(w[0]));
            }
            lemma_run_len_stops_at_whitespace(l, w);
            lemma_run_len_bound(l);
            let r = run_len(l) as int;
            assert(s.take(r) == l.take(r));
            assert(s.skip(r) == l.skip(r) + w);
            law_trailing_whitespace_is_ignored(l.skip(r), w);
        }
    }
}

/// Whitespace before a line adds no field and changes none.
pub proof fn law_leading_whitespace_is_ignored(w: Seq<char>, l: Seq<char>)
    requires
        is_blank(w),
    ensures
        fields(w + l) == fields(l),
    decreases w.len(),
{
    if w.len() == 0 {
        assert(w + l == l);
    } else {
        let s = w + l;
        assert(s[0] == w[0]);
        assert(is_whitespace(w[0]));
        assert(s.drop_first() == w.drop_first() + l);
        assert(is_blank(w.drop_first())) by {
            assert forall|i: int| 0 <= i < w.drop_first().len() implies is_whitespace(
                #[trigger] w.drop_first()[i],
            ) by {
                assert(w.drop_first()[i] == w[i + 1]);
            }
        }
        law_leading_whitespace_is_ignored(w.drop_first(), l);
    }
}

/// Joining two texts with whitespace between them joins their fields:
/// the fields of the whole are those of the first text, then those of
/// the second.
pub proof fn law_fields_of_joined_text(l: Seq<char>, w: Seq<char>, m: Seq<char>)
    requires
        w.len() > 0,
        is_blank(w),
    ensures
        fields(l + (w + m)) == fields(l) + fields(m),
    decreases l.len(),
{
    if l.len() == 0 {
        assert(l + (w + m) == w + m);
        law_leading_whitespace_is_ignored(w, m);
        assert(fields(l) == Seq::<Seq<char>>::empty());
    } else {
        let s = l + (w + m);
        assert(s[0] == l[0]);
        if is_whitespace(l[0]) {
            assert(s.drop_first() == l.drop_first() + (w + m));
            law_fields_of_joined_text(l.drop_first(), w, m);
        } else {
            assert((w + m)[0] == w[0]);
            assert(is_whitespace(w[0]));
            lemma_run_len_stops_at_whitespace(l, w + m);
            lemma_run_len_bound(l);
            let r = run_len(l) as int;
            assert(s.take(r) == l.take(r));
            assert(s.skip(r) == l.skip(r) + (w + m));
            law_fields_of_joined_text(l.skip(r), w, m);
            assert(fields(s) == seq![l.take(r)] + (fields(l.skip(r)) + fields(m)));
            assert(fields(l) == seq![l.take(r)] + fields(l.skip(r)));
        }
    }
}

/// Splits `chars` into the character ranges `[start, end)` of its fields.
pub fn field_bounds(chars: &Vec<char>) -> (bounds: Vec<(usize, usize)>)
    ensures
        bounds@.len() == fields(chars@).len(),
        forall|k: int|
            0 <= k < bounds@.len() ==> {
                let (a, b) = #[trigger] bounds@[k];
                &&& a < b <= chars@.len()
                &&& chars@.subrange(a as int, b as int) == fields(chars@)[k]
            },
{
    let n = chars.len();
    let mut bounds: Vec<(usize, usize)> = Vec::new();
    let mut i: usize = 0;
    assert(chars@.skip(0) == chars@);
    assert(bounds@.map_values(|p: (usize, usize)| chars@.subrange(p.0 as int, p.1 as int))
        == Seq::<Seq<char>>::empty());
    while i < n
        invariant
            n == chars@.len(),
            i <= n,
            fields(chars@) == bounds@.map_values(
                |p: (usize, usize)| chars@.subrange(p.0 as int, p.1 as int),
            ) + fields(chars@.skip(i as int)),
            forall|k: int|
                0 <= k < bounds@.len() ==> {
                    let (a, b) = #[trigger] bounds@[k];
                    a < b <= i
                },
        decreases n - i,
    {
        let ghost rest = chars@.skip(i as int);
        if whitespace(chars[i]) {
            assert(rest.drop_first() == chars@.skip(i + 1));
            i = i + 1;
        } else {
            let start = i;
            let mut j: usize = i + 1;
            assert(rest.drop_first() == chars@.skip(j as int));
            while j < n && !whitespace(chars[j])
                invariant
                    n == chars@.len(),
                    start < j <= n,
                    run_len(rest) == (j - start) + run_len(chars@.skip(j as int)),
                    rest == chars@.skip(start as int),
                decreases n - j,
            {
                assert(chars@.skip(j as int).drop_first() == chars@.skip(j + 1));
                j = j + 1;
            }
            assert(run_len(chars@.skip(j as int)) == 0);
            assert(rest.take(run_len(rest) as int) == chars@.subrange(start as int, j as int));
            assert(rest.skip(run_len(rest) as int) == chars@.skip(j as int));
            let ghost old_bounds = bounds@;
            bounds.push((start, j));
            assert(bounds@.map_values(|p: (usize, usize)| chars@.subrange(p.0 as int, p.1 as int))
                == old_bounds.map_values(
                |p: (usize, usize)| chars@.subrange(p.0 as int, p.1 as int),
            ) + seq![chars@.subrange(start as int, j as int)]);
            i = j;
        }
    }
    assert(chars@.skip(n as int).len() == 0);
    let ghost m = bounds@.map_values(|p: (usize, usize)| chars@.subrange(p.0 as int, p.1 as int));
    assert(fields(chars@) == m);
    assert forall|k: int| 0 <= k < bounds@.len() implies {
        let (a, b) = #[trigger] bounds@[k];
        &&& a < b <= chars@.len()
        &&& chars@.subrange(a as int, b as int) == fields(chars@)[k]
    } by {
        assert(m[k] == chars@.subrange(bounds@[k].0 as int, bounds@[k].1 as int));
    }
    bounds
}

/// The characters of `s`, one by one.
pub fn chars_of(s: &str) -> (chars: Vec<char>)
    ensures
        chars@ == s@,
{
    let mut chars: Vec<char> = Vec::new();
    for c in it: s.chars()
        invariant
            chars@ == it.seq().take(it.index() as int),
            it.seq() == s@,
    {
        chars.push(c);
    }
    chars
}

} // verus!
