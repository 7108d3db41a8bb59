//! The field layer of the line formats: each field is escaped so that it holds
//! no `|`, newline or carriage return, and the fields of a line are separated by `|`.
use vstd::prelude::*;
use crate::text::{char_is_whitespace, chars_of, push_char, push_str, trim, whitespace_flags};

verus! {

/// Characters that a field can not hold as they are.
pub open spec fn is_escaped(c: char) -> bool {
    c == '|' || c == '\n' || c == '\r'
}

/// The text that stands for one character of a field.
pub open spec fn escape_char(c: char) -> Seq<char> {
    if c == '|' {
        seq!['%', '7', 'C']
    } else if c == '\n' {
        seq!['%', '0', 'A']
    } else if c == '\r' {
        seq!['%', '0', 'D']
    } else {
        seq![c]
    }
}

/// A field with each of its characters escaped.
pub open spec fn escape(s: Seq<char>) -> Seq<char>
    decreases s.len(),
{
    if s.len() == 0 {
        seq![]
    } else {
        escape_char(s[0]) + escape(s.skip(1))
    }
}

/// A line after one more field: a `|` first, unless the line is still empty.
pub open spec fn with_field(line: Seq<char>, field: Seq<char>) -> Seq<char> {
    (if line.len() > 0 {
        line.push('|')
    } else {
        line
    }) + escape(field)
}

/// The line that holds the given fields, pushed one after the other.
pub open spec fn encode_fields(fs: Seq<Seq<char>>) -> Seq<char>
    decreases fs.len(),
{
    if fs.len() == 0 {
        seq![]
    } else {
        with_field(encode_fields(fs.drop_last()), fs.last())
    }
}

/// An escape sequence (`%7C`, `%0A` or `%0D`) starts at index `i` of `s`.
pub open spec fn escape_at(s: Seq<char>, i: int) -> bool {
    &&& 0 <= i
    &&& i + 3 <= s.len()
    &&& s[i] == '%'
    &&& ((s[i + 1] == '7' && s[i + 2] == 'C') || (s[i + 1] == '0' && (s[i + 2] == 'A' || s[i
        + 2] == 'D')))
}

pub open spec fn has_escape_sequence(s: Seq<char>) -> bool {
    exists|i: int| escape_at(s, i)
}

/// A field's text with each escape sequence replaced by the character it stands for.
/// This is also what replacing all `%7C`, then all `%0A`, then all `%0D` gives
/// (`lemma_percent_decoded_replaces`).
pub open spec fn percent_decoded(s: Seq<char>) -> Seq<char>
    decreases s.len(),
{
    if s.len() == 0 {
        seq![]
    } else if escape_at(s, 0) && s[2] == 'C' {
        seq!['|'] + percent_decoded(s.skip(3))
    } else if escape_at(s, 0) && s[2] == 'A' {
        seq!['\n'] + percent_decoded(s.skip(3))
    } else if escape_at(s, 0) && s[2] == 'D' {
        seq!['\r'] + percent_decoded(s.skip(3))
    } else {
        seq![s[0]] + percent_decoded(s.skip(1))
    }
}

/// `s` with each occurrence of `pat`, found from the left without overlaps, replaced by
/// `rep`, as `str::replace` gives it.
pub open spec fn replace_all(s: Seq<char>, pat: Seq<char>, rep: char) -> Seq<char>
    decreases s.len(),
{
    if s.len() == 0 {
        seq![]
    } else if pat.len() > 0 && s.len() >= pat.len() && s.take(pat.len() as int) == pat {
        seq![rep] + replace_all(s.skip(pat.len() as int), pat, rep)
    } else {
        seq![s[0]] + replace_all(s.skip(1), pat, rep)
    }
}

/// Decoding replaces `%7C`, then `%0A`, then `%0D`, each through the whole text.
pub open spec fn replaced_escapes(s: Seq<char>) -> Seq<char> {
    replace_all(
        replace_all(replace_all(s, seq!['%', '7', 'C'], '|'), seq!['%', '0', 'A'], '\n'),
        seq!['%', '0', 'D'],
        '\r',
    )
}

/// The pieces of `s` between the occurrences of `sep`, as `str::split` gives them.
pub open spec fn split_on(s: Seq<char>, sep: char) -> Seq<Seq<char>>
    decreases s.len(),
{
    if s.len() == 0 {
        seq![seq![]]
    } else {
        let p = split_on(s.drop_last(), sep);
        if s.last() == sep {
            p.push(seq![])
        } else {
            p.update(p.len() - 1, p.last().push(s.last()))
        }
    }
}

/// The parts joined with `sep` between neighbours.
pub open spec fn join(parts: Seq<Seq<char>>, sep: char) -> Seq<char>
    decreases parts.len(),
{
    if parts.len() == 0 {
        seq![]
    } else if parts.len() == 1 {
        parts[0]
    } else {
        join(parts.drop_last(), sep).push(sep) + parts.last()
    }
}

/// The decoded fields of a line.
pub open spec fn split_fields(line: Seq<char>) -> Seq<Seq<char>> {
    split_on(line, '|').map_values(|p: Seq<char>| percent_decoded(p))
}

pub open spec fn contains_char(s: Seq<char>, c: char) -> bool {
    exists|i: int| 0 <= i < s.len() && s[i] == c
}

// ---------------------------------------------------------------------------
// Lemmas
// ---------------------------------------------------------------------------

pub proof fn lemma_escape_concat(a: Seq<char>, b: Seq<char>)
    ensures
        escape(a + b) == escape(a) + escape(b),
    decreases a.len(),
{
    if a.len() == 0 {
        assert(a + b == b);
        assert(escape(a) == Seq::<char>::empty());
        assert(Seq::<char>::empty() + escape(b) == escape(b));
    } else {
        assert((a + b)[0] == a[0]);
        assert((a + b).skip(1) == a.skip(1) + b);
        lemma_escape_concat(a.skip(1), b);
        assert(escape_char(a[0]) + (escape(a.skip(1)) + escape(b)) == (escape_char(a[0])
            + escape(a.skip(1))) + escape(b));
    }
}

pub proof fn lemma_escape_single(c: char)
    ensures
        escape(seq![c]) == escape_char(c),
{
    assert(seq![c].skip(1) == Seq::<char>::empty());
    assert(escape(Seq::<char>::empty()) == Seq::<char>::empty());
    assert(escape_char(c) + Seq::<char>::empty() == escape_char(c));
}

/// Facts on the shape of an escaped field.
pub proof fn lemma_escape_shape(s: Seq<char>)
    ensures
        escape(s).len() >= s.len(),
        s.len() > 0 ==> escape(s)[0] == (if is_escaped(s[0]) {
            '%'
        } else {
            s[0]
        }),
        s.len() > 0 && !is_escaped(s[0]) ==> escape(s).skip(1) == escape(s.skip(1)),
        forall|i: int| 0 <= i < escape(s).len() ==> !is_escaped(#[trigger] escape(s)[i]),
    decreases s.len(),
{
    if s.len() > 0 {
        lemma_escape_shape(s.skip(1));
        let e = escape(s);
        let h = escape_char(s[0]);
        let t = escape(s.skip(1));
        assert(e == h + t);
        assert forall|i: int| 0 <= i < e.len() implies !is_escaped(#[trigger] e[i]) by {
            if i >= h.len() {
                assert(e[i] == t[i - h.len()]);
            }
        }
        if !is_escaped(s[0]) {
            assert(e.skip(1) == t);
        }
    }
}

pub proof fn lemma_no_escape_sequence_tail(s: Seq<char>, k: int)
    requires
        !has_escape_sequence(s),
        0 <= k <= s.len(),
    ensures
        !has_escape_sequence(s.skip(k)),
{
    assert forall|i: int| !escape_at(s.skip(k), i) by {
        if escape_at(s.skip(k), i) {
            assert(escape_at(s, i + k));
        }
    }
}

/// Decoding an escaped field gives the field back, when the field itself holds no
/// escape sequence.
pub proof fn lemma_decode_escape(s: Seq<char>)
    requires
        !has_escape_sequence(s),
    ensures
        percent_decoded(escape(s)) == s,
    decreases s.len(),
{
    if s.len() == 0 {
        assert(escape(s) == Seq::<char>::empty());
    } else {
        let r = s.skip(1);
        let c = s[0];
        let e = escape(s);
        lemma_no_escape_sequence_tail(s, 1);
        lemma_decode_escape(r);
        lemma_escape_shape(s);
        lemma_escape_shape(r);
        assert(e == escape_char(c) + escape(r));
        if is_escaped(c) {
            assert(e.skip(3) == escape(r));
            assert(escape_at(e, 0));
            assert(seq![c] + r == s);
        } else {
            if c == '%' && escape_at(e, 0) {
                assert(e[1] == escape(r)[0]);
                assert(r.len() > 0);
                assert(!is_escaped(r[0]));
                assert(r[0] == e[1]);
                assert(escape(r).skip(1) == escape(r.skip(1)));
                assert(e[2] == escape(r)[1]);
                assert(escape(r)[1] == escape(r.skip(1))[0]);
                lemma_escape_shape(r.skip(1));
                assert(r.skip(1).len() > 0);
                assert(r[1] == r.skip(1)[0]);
                assert(escape_at(s, 0));
                assert(false);
            }
            assert(!escape_at(e, 0));
            assert(e[0] == c);
            assert(e.skip(1) == escape(r));
            assert(seq![c] + r == s);
        }
    }
}

/// A three-character pattern that begins with `%` and holds no other `%`, replaced by a
/// character other than `%`.
pub open spec fn percent_pattern(pat: Seq<char>, rep: char) -> bool {
    pat.len() == 3 && pat[0] == '%' && pat[1] != '%' && pat[2] != '%' && rep != '%'
}

/// A character other than `%` passes through unchanged.
proof fn lemma_replace_plain(c: char, t: Seq<char>, pat: Seq<char>, rep: char)
    requires
        percent_pattern(pat, rep),
        c != '%',
    ensures
        replace_all(seq![c] + t, pat, rep) == seq![c] + replace_all(t, pat, rep),
{
    let u = seq![c] + t;
    if u.len() >= 3 {
        assert(u.take(3)[0] == c);
        assert(u.take(3) != pat);
    }
    assert(u[0] == c);
    assert(u.skip(1) == t);
}

/// A `%` that the rest of the text does not complete to the pattern passes through.
proof fn lemma_replace_percent(t: Seq<char>, pat: Seq<char>, rep: char)
    requires
        percent_pattern(pat, rep),
        !(t.len() >= 2 && t[0] == pat[1] && t[1] == pat[2]),
    ensures
        replace_all(seq!['%'] + t, pat, rep) == seq!['%'] + replace_all(t, pat, rep),
{
    let u = seq!['%'] + t;
    if u.len() >= 3 && u.take(3) == pat {
        assert(u.take(3)[1] == t[0] && u.take(3)[2] == t[1]);
    }
    assert(u[0] == '%');
    assert(u.skip(1) == t);
}

/// The pattern at the front is replaced.
proof fn lemma_replace_match(t: Seq<char>, pat: Seq<char>, rep: char)
    requires
        percent_pattern(pat, rep),
    ensures
        replace_all(pat + t, pat, rep) == seq![rep] + replace_all(t, pat, rep),
{
    let u = pat + t;
    assert(u.take(3) == pat);
    assert(u.skip(3) == t);
}

/// A three-character text that is not the pattern, and whose last two characters are not
/// `%`, passes through whole.
proof fn lemma_replace_other3(x: Seq<char>, t: Seq<char>, pat: Seq<char>, rep: char)
    requires
        percent_pattern(pat, rep),
        x.len() == 3,
        x[0] == '%',
        x[1] != '%',
        x[2] != '%',
        x != pat,
    ensures
        replace_all(x + t, pat, rep) == x + replace_all(t, pat, rep),
{
    let u = x + t;
    assert(u.take(3) == x);
    assert(u[0] == '%');
    let u1 = u.skip(1);
    assert(u1 == seq![x[1]] + (seq![x[2]] + t));
    lemma_replace_plain(x[1], seq![x[2]] + t, pat, rep);
    lemma_replace_plain(x[2], t, pat, rep);
    assert(x == seq![x[0]] + (seq![x[1]] + seq![x[2]]));
    assert(seq![x[0]] + (seq![x[1]] + (seq![x[2]] + replace_all(t, pat, rep))) == x
        + replace_all(t, pat, rep));
}

/// When the replaced text begins with two characters that are not the replacement, the
/// text itself began with them.
proof fn lemma_replace_front2(t: Seq<char>, pat: Seq<char>, rep: char, a: char, b: char)
    requires
        percent_pattern(pat, rep),
        a != rep,
        b != rep,
        replace_all(t, pat, rep).len() >= 2,
        replace_all(t, pat, rep)[0] == a,
        replace_all(t, pat, rep)[1] == b,
    ensures
        t.len() >= 2,
        t[0] == a,
        t[1] == b,
{
    let r = replace_all(t, pat, rep);
    if t.len() == 0 {
        assert(r.len() == 0);
    }
    if t.len() >= 3 && t.take(3) == pat {
        assert(r[0] == rep);
    }
    assert(r == seq![t[0]] + replace_all(t.skip(1), pat, rep));
    let t1 = t.skip(1);
    let r1 = replace_all(t1, pat, rep);
    assert(r1[0] == b);
    if t1.len() == 0 {
        assert(r1.len() == 0);
    }
    if t1.len() >= 3 && t1.take(3) == pat {
        assert(r1[0] == rep);
    }
    assert(r1 == seq![t1[0]] + replace_all(t1.skip(1), pat, rep));
    assert(t1[0] == t[1]);
}

/// Decoding escape sequences in one pass gives what replacing `%7C`, then `%0A`, then `%0D`
/// through the whole text gives.
pub proof fn lemma_percent_decoded_replaces(s: Seq<char>)
    ensures
        percent_decoded(s) == replaced_escapes(s),
    decreases s.len(),
{
    let p1 = seq!['%', '7', 'C'];
    let p2 = seq!['%', '0', 'A'];
    let p3 = seq!['%', '0', 'D'];
    assert(percent_pattern(p1, '|'));
    assert(percent_pattern(p2, '\n'));
    assert(percent_pattern(p3, '\r'));
    if s.len() == 0 {
        return;
    }
    if escape_at(s, 0) {
        let x = s.take(3);
        let rest = s.skip(3);
        assert(s == x + rest);
        lemma_percent_decoded_replaces(rest);
        let r1 = replace_all(rest, p1, '|');
        let r2 = replace_all(r1, p2, '\n');
        if s[2] == 'C' {
            assert(x == p1);
            lemma_replace_match(rest, p1, '|');
            lemma_replace_plain('|', r1, p2, '\n');
            lemma_replace_plain('|', r2, p3, '\r');
        } else if s[2] == 'A' {
            assert(x == p2);
            lemma_replace_other3(x, rest, p1, '|');
            lemma_replace_match(r1, p2, '\n');
            lemma_replace_plain('\n', r2, p3, '\r');
        } else {
            assert(x == p3);
            lemma_replace_other3(x, rest, p1, '|');
            lemma_replace_other3(x, r1, p2, '\n');
            lemma_replace_match(r2, p3, '\r');
        }
    } else {
        let c = s[0];
        let rest = s.skip(1);
        assert(s == seq![c] + rest);
        lemma_percent_decoded_replaces(rest);
        let r1 = replace_all(rest, p1, '|');
        let r2 = replace_all(r1, p2, '\n');
        if c != '%' {
            lemma_replace_plain(c, rest, p1, '|');
            lemma_replace_plain(c, r1, p2, '\n');
            lemma_replace_plain(c, r2, p3, '\r');
        } else {
            if rest.len() >= 2 && rest[0] == '7' && rest[1] == 'C' {
                assert(escape_at(s, 0));
            }
            lemma_replace_percent(rest, p1, '|');
            if r1.len() >= 2 && r1[0] == '0' && r1[1] == 'A' {
                lemma_replace_front2(rest, p1, '|', '0', 'A');
                assert(escape_at(s, 0));
            }
            lemma_replace_percent(r1, p2, '\n');
            if r2.len() >= 2 && r2[0] == '0' && r2[1] == 'D' {
                lemma_replace_front2(r1, p2, '\n', '0', 'D');
                lemma_replace_front2(rest, p1, '|', '0', 'D');
                assert(escape_at(s, 0));
            }
            lemma_replace_percent(r2, p3, '\r');
        }
    }
}

pub proof fn lemma_split_on_nonempty(s: Seq<char>, sep: char)
    ensures
        split_on(s, sep).len() >= 1,
    decreases s.len(),
{
    if s.len() > 0 {
        lemma_split_on_nonempty(s.drop_last(), sep);
    }
}

/// Text without the separator extends the last piece.
proof fn lemma_split_on_append(x: Seq<char>, b: Seq<char>, sep: char)
    requires
        !contains_char(b, sep),
    ensures
        split_on(x + b, sep) == split_on(x, sep).update(
            split_on(x, sep).len() - 1,
            split_on(x, sep).last() + b,
        ),
    decreases b.len(),
{
    lemma_split_on_nonempty(x, sep);
    let q = split_on(x, sep);
    if b.len() == 0 {
        assert(x + b == x);
        assert(q.last() + b == q.last());
        assert(q.update(q.len() - 1, q.last()) == q);
    } else {
        let bi = b.drop_last();
        assert(!contains_char(bi, sep)) by {
            if contains_char(bi, sep) {
                let i = choose|i: int| 0 <= i < bi.len() && bi[i] == sep;
                assert(b[i] == sep);
            }
        }
        lemma_split_on_append(x, bi, sep);
        assert((x + b).drop_last() == x + bi);
        assert((x + b).last() == b.last());
        assert(b.last() != sep) by {
            assert(b[b.len() - 1] == b.last());
        }
        assert((q.last() + bi).push(b.last()) == q.last() + b);
    }
}

/// Splitting joined parts gives the parts back, when no part holds the separator.
pub proof fn lemma_split_join(gs: Seq<Seq<char>>, sep: char)
    requires
        gs.len() >= 1,
        forall|i: int| 0 <= i < gs.len() ==> !contains_char(#[trigger] gs[i], sep),
    ensures
        split_on(join(gs, sep), sep) == gs,
    decreases gs.len(),
{
    if gs.len() == 1 {
        lemma_split_on_append(Seq::<char>::empty(), gs[0], sep);
        assert(Seq::<char>::empty() + gs[0] == gs[0]);
        assert(split_on(Seq::<char>::empty(), sep) == seq![Seq::<char>::empty()]);
        assert(seq![Seq::<char>::empty()].update(0, Seq::<char>::empty() + gs[0]) == gs);
    } else {
        let init = gs.drop_last();
        lemma_split_join(init, sep);
        let x = join(init, sep).push(sep);
        assert(x.drop_last() == join(init, sep));
        assert(split_on(x, sep) == init.push(Seq::<char>::empty()));
        lemma_split_on_append(x, gs.last(), sep);
        assert(Seq::<char>::empty() + gs.last() == gs.last());
        assert(init.push(Seq::<char>::empty()).update(init.len() as int, gs.last()) == gs);
    }
}

/// Encoding one more field.
pub proof fn lemma_encode_fields_take(fs: Seq<Seq<char>>, k: int)
    requires
        0 <= k < fs.len(),
    ensures
        encode_fields(fs.take(k + 1)) == with_field(encode_fields(fs.take(k)), fs[k]),
        encode_fields(fs.take(0)) == Seq::<char>::empty(),
        encode_fields(fs.take(fs.len() as int)) == encode_fields(fs),
{
    assert(fs.take(k + 1).drop_last() == fs.take(k));
    assert(fs.take(0) == Seq::<Seq<char>>::empty());
    assert(fs.take(fs.len() as int) == fs);
}

pub proof fn lemma_encode_fields_nonempty(fs: Seq<Seq<char>>)
    requires
        fs.len() >= 1,
        fs[0].len() > 0,
    ensures
        encode_fields(fs).len() > 0,
    decreases fs.len(),
{
    if fs.len() == 1 {
        lemma_escape_shape(fs[0]);
        assert(encode_fields(fs.drop_last()) == Seq::<char>::empty());
    } else {
        lemma_encode_fields_nonempty(fs.drop_last());
    }
}

/// With a non-empty first field, the line is the escaped fields joined with `|`.
pub proof fn lemma_encode_fields_join(fs: Seq<Seq<char>>)
    requires
        fs.len() >= 1,
        fs[0].len() > 0,
    ensures
        encode_fields(fs) == join(fs.map_values(|f: Seq<char>| escape(f)), '|'),
    decreases fs.len(),
{
    let es = fs.map_values(|f: Seq<char>| escape(f));
    if fs.len() == 1 {
        assert(encode_fields(fs.drop_last()) == Seq::<char>::empty());
        assert(Seq::<char>::empty() + escape(fs[0]) == escape(fs[0]));
    } else {
        let init = fs.drop_last();
        lemma_encode_fields_join(init);
        lemma_encode_fields_nonempty(init);
        assert(init.map_values(|f: Seq<char>| escape(f)) == es.drop_last());
    }
}

/// Decoding the fields of an encoded line gives the fields back, when the first field is
/// not empty and no field holds an escape sequence.
pub proof fn lemma_split_encode_fields(fs: Seq<Seq<char>>)
    requires
        fs.len() >= 1,
        fs[0].len() > 0,
        forall|i: int| 0 <= i < fs.len() ==> !has_escape_sequence(#[trigger] fs[i]),
    ensures
        split_fields(encode_fields(fs)) == fs,
{
    let es = fs.map_values(|f: Seq<char>| escape(f));
    lemma_encode_fields_join(fs);
    assert forall|i: int| 0 <= i < es.len() implies !contains_char(#[trigger] es[i], '|') by {
        lemma_escape_shape(fs[i]);
        if contains_char(es[i], '|') {
            let k = choose|k: int| 0 <= k < es[i].len() && es[i][k] == '|';
            assert(!is_escaped(escape(fs[i])[k]));
        }
    }
    lemma_split_join(es, '|');
    assert forall|i: int| 0 <= i < fs.len() implies percent_decoded(#[trigger] es[i]) == fs[i] by {
        lemma_decode_escape(fs[i]);
    }
    assert(split_fields(encode_fields(fs)) == fs);
}

// ---------------------------------------------------------------------------
// Executable field handling
// ---------------------------------------------------------------------------

/// Appends one field to a line: a `|` first unless the line is empty, then the field
/// with `|`, newline and carriage return written as `%7C`, `%0A` and `%0D`.
pub fn push_field(out: &mut String, field: &str)
    ensures
        final(out)@ == with_field(old(out)@, field@),
{
    let empty = out.as_str().is_empty();
    if !empty {
        push_char(out, '|');
    }
    let ghost start = out@;
    let chars = chars_of(field);
    for i in 0..chars.len()
        invariant
            chars@ == field@,
            out@ == start + escape(chars@.take(i as int)),
    {
        let c = chars[i];
        proof {
            lemma_escape_concat(chars@.take(i as int), seq![c]);
            lemma_escape_single(c);
            assert(chars@.take(i + 1) == chars@.take(i as int) + seq![c]);
        }
        if c == '|' {
            push_str(out, "%7C");
            proof { reveal_strlit("%7C"); }
        } else if c == '\n' {
            push_str(out, "%0A");
            proof { reveal_strlit("%0A"); }
        } else if c == '\r' {
            push_str(out, "%0D");
            proof { reveal_strlit("%0D"); }
        } else {
            push_char(out, c);
        }
        assert(out@ == start + escape(chars@.take(i + 1)));
    }
    assert(chars@.take(chars.len() as int) == field@);
}

/// The pieces of `s` between the occurrences of `sep`.
pub fn split_chars(s: &Vec<char>, sep: char) -> (r: Vec<Vec<char>>)
    ensures
        r@.map_values(|p: Vec<char>| p@) == split_on(s@, sep),
{
    let mut parts: Vec<Vec<char>> = Vec::new();
    let mut cur: Vec<char> = Vec::new();
    for i in 0..s.len()
        invariant
            parts@.map_values(|p: Vec<char>| p@).push(cur@) == split_on(s@.take(i as int), sep),
    {
        let c = s[i];
        let ghost before = parts@.map_values(|p: Vec<char>| p@).push(cur@);
        assert(s@.take(i + 1).drop_last() == s@.take(i as int));
        assert(s@.take(i + 1).last() == c);
        if c == sep {
            parts.push(cur);
            cur = Vec::new();
            assert(parts@.map_values(|p: Vec<char>| p@).push(cur@) == before.push(seq![]));
        } else {
            cur.push(c);
            assert(parts@.map_values(|p: Vec<char>| p@).push(cur@) == before.update(
                before.len() - 1,
                before.last().push(c),
            ));
        }
    }
    assert(s@.take(s.len() as int) == s@);
    parts.push(cur);
    parts
}

/// Replaces each escape sequence by the character it stands for.
pub fn percent_decode(s: &Vec<char>) -> (r: Vec<char>)
    ensures
        r@ == percent_decoded(s@),
{
    let n = s.len();
    let mut out: Vec<char> = Vec::new();
    let mut i: usize = 0;
    assert(s@.skip(0) == s@);
    while i < n
        invariant
            i <= n,
            n == s@.len(),
            out@ + percent_decoded(s@.skip(i as int)) == percent_decoded(s@),
        decreases n - i,
    {
        let ghost rest = s@.skip(i as int);
        let seq3 = n - i >= 3 && s[i] == '%' && ((s[i + 1] == '7' && s[i + 2] == 'C') || (s[i
            + 1] == '0' && (s[i + 2] == 'A' || s[i + 2] == 'D')));
        assert(seq3 == escape_at(rest, 0));
        if seq3 {
            let c = s[i + 2];
            assert(rest.skip(3) == s@.skip(i + 3));
            if c == 'C' {
                out.push('|');
            } else if c == 'A' {
                out.push('\n');
            } else {
                out.push('\r');
            }
            i = i + 3;
        } else {
            assert(rest.skip(1) == s@.skip(i + 1));
            out.push(s[i]);
            i = i + 1;
        }
    }
    assert(s@.skip(n as int) == Seq::<char>::empty());
    assert(out@ + Seq::<char>::empty() == out@);
    out
}

/// The decoded fields of a line.
pub fn split_line_fields(line: &str) -> (r: Vec<Vec<char>>)
    ensures
        r@.map_values(|p: Vec<char>| p@) == split_fields(line@),
{
    let chars = chars_of(line);
    split_fields_of(&chars)
}

/// The decoded fields of a line given by its characters.
pub fn split_fields_of(chars: &Vec<char>) -> (r: Vec<Vec<char>>)
    ensures
        r@.map_values(|p: Vec<char>| p@) == split_fields(chars@),
{
    let ghost line = chars@;
    let parts = split_chars(chars, '|');
    let mut out: Vec<Vec<char>> = Vec::new();
    for i in 0..parts.len()
        invariant
            out@.map_values(|p: Vec<char>| p@) == split_on(line, '|').take(i as int).map_values(
                |p: Seq<char>| percent_decoded(p),
            ),
            parts@.map_values(|p: Vec<char>| p@) == split_on(line, '|'),
            chars@ == line,
    {
        let d = percent_decode(&parts[i]);
        let ghost ps = split_on(line, '|');
        let ghost before = out@.map_values(|p: Vec<char>| p@);
        proof {
            assert(parts@.map_values(|p: Vec<char>| p@)[i as int] == parts@[i as int]@);
            assert(parts@[i as int]@ == ps[i as int]);
        }
        out.push(d);
        assert(out@.map_values(|p: Vec<char>| p@) =~= before.push(d@));
        assert(ps.take(i + 1) =~= ps.take(i as int).push(ps[i as int]));
        assert(ps.take(i + 1).map_values(|p: Seq<char>| percent_decoded(p)) =~= ps.take(
            i as int,
        ).map_values(|p: Seq<char>| percent_decoded(p)).push(percent_decoded(ps[i as int])));
    }
    assert(split_on(line, '|').take(parts.len() as int) == split_on(line, '|'));
    out
}

// ---------------------------------------------------------------------------
// Lines
// ---------------------------------------------------------------------------

/// An encoded line holds no newline and no carriage return.
pub proof fn lemma_encode_fields_single_line(fs: Seq<Seq<char>>)
    ensures
        forall|i: int|
            0 <= i < encode_fields(fs).len() ==> #[trigger] encode_fields(fs)[i] != '\n'
                && encode_fields(fs)[i] != '\r',
    decreases fs.len(),
{
    if fs.len() > 0 {
        let prev = encode_fields(fs.drop_last());
        lemma_encode_fields_single_line(fs.drop_last());
        lemma_escape_shape(fs.last());
        let head = if prev.len() > 0 {
            prev.push('|')
        } else {
            prev
        };
        let e = escape(fs.last());
        assert(encode_fields(fs) == head + e);
        assert forall|i: int| 0 <= i < encode_fields(fs).len() implies #[trigger] encode_fields(
            fs,
        )[i] != '\n' && encode_fields(fs)[i] != '\r' by {
            if i < head.len() {
                if i < prev.len() {
                    assert(head[i] == prev[i]);
                }
            } else {
                assert(encode_fields(fs)[i] == e[i - head.len()]);
            }
        }
    }
}

/// The first character of a line is the first character of its escaped first field.
pub proof fn lemma_encode_fields_first(fs: Seq<Seq<char>>)
    requires
        fs.len() >= 1,
        fs[0].len() > 0,
    ensures
        encode_fields(fs).len() > 0,
        encode_fields(fs)[0] == escape(fs[0])[0],
    decreases fs.len(),
{
    lemma_escape_shape(fs[0]);
    lemma_encode_fields_nonempty(fs);
    if fs.len() == 1 {
        assert(encode_fields(fs.drop_last()) == Seq::<char>::empty());
        assert(encode_fields(fs) == escape(fs[0]));
    } else {
        let prev = encode_fields(fs.drop_last());
        lemma_encode_fields_first(fs.drop_last());
        assert(encode_fields(fs) == prev.push('|') + escape(fs.last()));
        assert(encode_fields(fs)[0] == prev[0]);
    }
}

/// The last character of an escaped non-empty field.
pub proof fn lemma_escape_last(s: Seq<char>)
    requires
        s.len() > 0,
    ensures
        escape(s).len() > 0,
        escape(s).last() == (if s.last() == '|' {
            'C'
        } else if s.last() == '\n' {
            'A'
        } else if s.last() == '\r' {
            'D'
        } else {
            s.last()
        }),
{
    let c = s.last();
    assert(s == s.drop_last() + seq![c]);
    lemma_escape_concat(s.drop_last(), seq![c]);
    lemma_escape_single(c);
}

/// An encoded line of two or more fields is left unchanged by trimming, when the first
/// field's first character and the last field's last character are not whitespace or are
/// escaped: the line's first character comes from the first field (`%` when escaped), and
/// its last character from the last field (`C`, `A` or `D` when escaped), or is `|` when
/// that field is empty.
pub proof fn lemma_encode_fields_trimmed(fs: Seq<Seq<char>>)
    requires
        fs.len() >= 2,
        fs[0].len() > 0,
        !char_is_whitespace(fs[0][0]) || is_escaped(fs[0][0]),
        fs.last().len() > 0 ==> !char_is_whitespace(fs.last().last()) || is_escaped(
            fs.last().last(),
        ),
    ensures
        trim(encode_fields(fs)) == encode_fields(fs),
{
    let line = encode_fields(fs);
    let prev = encode_fields(fs.drop_last());
    lemma_encode_fields_first(fs);
    lemma_escape_shape(fs[0]);
    lemma_encode_fields_nonempty(fs.drop_last());
    let e = escape(fs.last());
    assert(line == prev.push('|') + e);
    if fs.last().len() > 0 {
        lemma_escape_last(fs.last());
        assert(line.last() == e.last());
    } else {
        assert(e == Seq::<char>::empty());
        assert(line.last() == '|');
    }
    let w = whitespace_flags(line);
    assert(!w[0]);
    assert(w.last() == char_is_whitespace(line.last()));
    assert(!w.last());
    assert(line.subrange(0, line.len() as int) == line);
}

/// A line without the carriage return that ends it, if any.
pub open spec fn strip_cr(p: Seq<char>) -> Seq<char> {
    if p.len() > 0 && p.last() == '\r' {
        p.drop_last()
    } else {
        p
    }
}

/// The lines of a text, as `str::lines` gives them: split at each newline, with a carriage
/// return before a newline dropped, and no last line when the text ends with a newline.
pub open spec fn lines_of(s: Seq<char>) -> Seq<Seq<char>> {
    let ps = split_on(s, '\n');
    let init = ps.drop_last().map_values(|p: Seq<char>| strip_cr(p));
    if ps.last().len() == 0 {
        init
    } else {
        init.push(ps.last())
    }
}

/// Breaking lines that were joined with newlines gives them back, when each is non-empty
/// and holds no newline or carriage return.
pub proof fn lemma_lines_of_join(ls: Seq<Seq<char>>)
    requires
        forall|i: int| 0 <= i < ls.len() ==> (#[trigger] ls[i]).len() > 0,
        forall|i: int, k: int|
            0 <= i < ls.len() && 0 <= k < ls[i].len() ==> #[trigger] ls[i][k] != '\n' && ls[i][k]
                != '\r',
    ensures
        lines_of(join(ls, '\n')) == ls,
{
    if ls.len() == 0 {
        assert(split_on(Seq::<char>::empty(), '\n') == seq![Seq::<char>::empty()]);
        assert(lines_of(join(ls, '\n')) == ls);
    } else {
        assert forall|i: int| 0 <= i < ls.len() implies !contains_char(#[trigger] ls[i], '\n') by {
            if contains_char(ls[i], '\n') {
                let k = choose|k: int| 0 <= k < ls[i].len() && ls[i][k] == '\n';
                assert(ls[i][k] != '\n');
            }
        }
        lemma_split_join(ls, '\n');
        let init = ls.drop_last();
        assert forall|i: int| 0 <= i < init.len() implies strip_cr(#[trigger] init[i]) == init[i] by {
            assert(init[i] == ls[i]);
            assert(ls[i][ls[i].len() - 1] != '\r');
        }
        assert(init.map_values(|p: Seq<char>| strip_cr(p)) == init);
        assert(ls.last() == ls[ls.len() - 1]);
        assert(init.push(ls.last()) == ls);
    }
}

/// Joining with one more part.
pub proof fn lemma_join_take(gs: Seq<Seq<char>>, k: int, sep: char)
    requires
        0 <= k < gs.len(),
    ensures
        join(gs.take(k + 1), sep) == (if k == 0 {
            gs[0]
        } else {
            join(gs.take(k), sep).push(sep) + gs[k]
        }),
        join(gs.take(0), sep) == Seq::<char>::empty(),
        join(gs.take(gs.len() as int), sep) == join(gs, sep),
{
    assert(gs.take(k + 1).drop_last() == gs.take(k));
    assert(gs.take(0) == Seq::<Seq<char>>::empty());
    assert(gs.take(gs.len() as int) == gs);
}

/// The lines of a text.
pub fn split_lines(text: &str) -> (r: Vec<Vec<char>>)
    ensures
        r@.map_values(|p: Vec<char>| p@) == lines_of(text@),
{
    let chars = chars_of(text);
    let parts = split_chars(&chars, '\n');
    let ghost ps = split_on(text@, '\n');
    proof {
        lemma_split_on_nonempty(text@, '\n');
    }
    let n = parts.len();
    let mut out: Vec<Vec<char>> = Vec::new();
    for i in 0..n - 1
        invariant
            n == ps.len(),
            n >= 1,
            parts@.map_values(|p: Vec<char>| p@) == ps,
            out@.map_values(|p: Vec<char>| p@) == ps.take(i as int).map_values(
                |p: Seq<char>| strip_cr(p),
            ),
    {
        let ghost before = out@.map_values(|p: Vec<char>| p@);
        assert(parts@.map_values(|p: Vec<char>| p@)[i as int] == parts@[i as int]@);
        let p = &parts[i];
        let m = p.len();
        let mut line: Vec<char> = Vec::new();
        let keep = if m > 0 && p[m - 1] == '\r' { m - 1 } else { m };
        for k in 0..keep
            invariant
                line@ == p@.take(k as int),
                keep <= p@.len(),
        {
            line.push(p[k]);
            assert(p@.take(k + 1) == p@.take(k as int).push(p@[k as int]));
        }
        assert(line@ == strip_cr(ps[i as int]));
        out.push(line);
        assert(out@.map_values(|p: Vec<char>| p@) =~= before.push(strip_cr(ps[i as int])));
        assert(ps.take(i + 1) =~= ps.take(i as int).push(ps[i as int]));
        assert(ps.take(i + 1).map_values(|p: Seq<char>| strip_cr(p)) =~= ps.take(
            i as int,
        ).map_values(|p: Seq<char>| strip_cr(p)).push(strip_cr(ps[i as int])));
    }
    assert(ps.take(n - 1) == ps.drop_last());
    assert(parts@.map_values(|p: Vec<char>| p@)[n - 1] == parts@[n - 1]@);
    if parts[n - 1].len() > 0 {
        let ghost before = out@.map_values(|p: Vec<char>| p@);
        let last = copy_chars(&parts[n - 1]);
        out.push(last);
        assert(out@.map_values(|p: Vec<char>| p@) =~= before.push(ps.last()));
    }
    out
}

/// A copy of a character vector.
pub fn copy_chars(v: &Vec<char>) -> (r: Vec<char>)
    ensures
        r@ == v@,
{
    let mut out: Vec<char> = Vec::new();
    for k in 0..v.len()
        invariant
            out@ == v@.take(k as int),
    {
        out.push(v[k]);
        assert(v@.take(k + 1) == v@.take(k as int).push(v@[k as int]));
    }
    assert(v@.take(v.len() as int) == v@);
    out
}

} // verus!
