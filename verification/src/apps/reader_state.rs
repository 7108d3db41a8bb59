//! Reader state and book identity helpers: book formats, book ids, the line
//! formats of the per-book records, and the paths where they are stored.
//!
//! Each record is one line of `|`-separated fields; a field's own `|`, newline
//! and carriage return are written as `%7C`, `%0A` and `%0D`.
use vstd::prelude::*;
use vstd::utf8::encode_utf8;
use crate::fields::{
    escape_at, is_escaped, lemma_encode_fields_nonempty, lemma_encode_fields_single_line,
    lemma_encode_fields_take, lemma_encode_fields_trimmed, lemma_join_take, lemma_lines_of_join, lemma_split_encode_fields,
    encode_fields, has_escape_sequence, join, lines_of, push_field, split_fields,
    split_fields_of, split_line_fields, split_lines,
};
use crate::text::{
    char_is_whitespace, ascii_lower, ascii_upper, chars_eq, chars_of, decimal, decimal_string, hex_char,
    hex_to_char, is_hex_digit, parse_unsigned, parse_unsigned_chars, push_char, push_decimal,
    push_str, string_from, string_from_chars, to_ascii_lower, to_ascii_upper,
    is_ascii_hexdigit, trim, trim_chars,
};

verus! {

// ---------------------------------------------------------------------------
// Book formats
// ---------------------------------------------------------------------------

#[derive(Clone, Copy, Debug, PartialEq, Eq, Structural)]
pub enum ReaderFormat {
    Txt,
    Epub,
    Unknown,
}

/// The bytes of `.epub`.
pub open spec fn epub_suffix() -> Seq<u8> {
    seq![46u8, 101u8, 112u8, 117u8, 98u8]
}

/// The bytes of `.txt`.
pub open spec fn txt_suffix() -> Seq<u8> {
    seq![46u8, 116u8, 120u8, 116u8]
}

pub open spec fn ends_with_bytes(b: Seq<u8>, suffix: Seq<u8>) -> bool {
    b.len() >= suffix.len() && b.subrange(b.len() - suffix.len(), b.len() as int) == suffix
}

/// The format of a book, by the ending of its path's UTF-8 bytes.
pub open spec fn format_of_path(path: Seq<char>) -> ReaderFormat {
    let b = encode_utf8(path);
    if ends_with_bytes(b, epub_suffix()) {
        ReaderFormat::Epub
    } else if ends_with_bytes(b, txt_suffix()) {
        ReaderFormat::Txt
    } else {
        ReaderFormat::Unknown
    }
}

pub open spec fn format_name(f: ReaderFormat) -> Seq<char> {
    match f {
        ReaderFormat::Txt => seq!['t', 'x', 't'],
        ReaderFormat::Epub => seq!['e', 'p', 'u', 'b'],
        ReaderFormat::Unknown => seq!['u', 'n', 'k', 'n', 'o', 'w', 'n'],
    }
}

pub open spec fn format_from_name(s: Seq<char>) -> ReaderFormat {
    if s == format_name(ReaderFormat::Txt) {
        ReaderFormat::Txt
    } else if s == format_name(ReaderFormat::Epub) {
        ReaderFormat::Epub
    } else {
        ReaderFormat::Unknown
    }
}

impl ReaderFormat {
    pub fn from_path(path: &str) -> (r: ReaderFormat)
        ensures
            r == format_of_path(path@),
    {
        let bytes = path.as_bytes();
        let n = bytes.len();
        let ghost b = bytes@;
        if n >= 5 && bytes[n - 5] == 46u8 && bytes[n - 4] == 101u8 && bytes[n - 3] == 112u8
            && bytes[n - 2] == 117u8 && bytes[n - 1] == 98u8 {
            assert(b.subrange(n - 5, n as int) == epub_suffix());
            ReaderFormat::Epub
        } else if n >= 4 && bytes[n - 4] == 46u8 && bytes[n - 3] == 116u8 && bytes[n - 2]
            == 120u8 && bytes[n - 1] == 116u8 {
            assert(!ends_with_bytes(b, epub_suffix())) by {
                if ends_with_bytes(b, epub_suffix()) {
                    assert(b.subrange(n - 5, n as int)[1] == b[n - 4]);
                }
            }
            assert(b.subrange(n - 4, n as int) == txt_suffix());
            ReaderFormat::Txt
        } else {
            assert(!ends_with_bytes(b, epub_suffix())) by {
                if ends_with_bytes(b, epub_suffix()) {
                    let t = b.subrange(n - 5, n as int);
                    assert(t[0] == b[n - 5] && t[1] == b[n - 4] && t[2] == b[n - 3] && t[3]
                        == b[n - 2] && t[4] == b[n - 1]);
                }
            }
            assert(!ends_with_bytes(b, txt_suffix())) by {
                if ends_with_bytes(b, txt_suffix()) {
                    let t = b.subrange(n - 4, n as int);
                    assert(t[0] == b[n - 4] && t[1] == b[n - 3] && t[2] == b[n - 2] && t[3]
                        == b[n - 1]);
                }
            }
            ReaderFormat::Unknown
        }
    }

    pub fn as_str(self) -> (r: &'static str)
        ensures
            r@ == format_name(self),
    {
        match self {
            ReaderFormat::Txt => {
                proof {
                    reveal_strlit("txt");
                }
                "txt"
            },
            ReaderFormat::Epub => {
                proof {
                    reveal_strlit("epub");
                }
                "epub"
            },
            ReaderFormat::Unknown => {
                proof {
                    reveal_strlit("unknown");
                }
                "unknown"
            },
        }
    }

    pub fn parse(s: &str) -> (r: ReaderFormat)
        ensures
            r == format_from_name(s@),
    {
        let chars = chars_of(s);
        format_from_chars(&chars)
    }
}

fn format_from_chars(s: &Vec<char>) -> (r: ReaderFormat)
    ensures
        r == format_from_name(s@),
{
    let txt = chars_of("txt");
    let epub = chars_of("epub");
    proof {
        reveal_strlit("txt");
        reveal_strlit("epub");
        assert(txt@ =~= format_name(ReaderFormat::Txt));
        assert(epub@ =~= format_name(ReaderFormat::Epub));
    }
    if chars_eq(s, &txt) {
        ReaderFormat::Txt
    } else if chars_eq(s, &epub) {
        ReaderFormat::Epub
    } else {
        ReaderFormat::Unknown
    }
}

/// Naming a format and reading the name back gives the format.
pub proof fn lemma_format_name_roundtrip(f: ReaderFormat)
    ensures
        format_from_name(format_name(f)) == f,
{
    assert(format_name(ReaderFormat::Txt).len() != format_name(ReaderFormat::Epub).len());
    assert(format_name(ReaderFormat::Txt).len() != format_name(ReaderFormat::Unknown).len());
    assert(format_name(ReaderFormat::Epub).len() != format_name(ReaderFormat::Unknown).len());
}

// ---------------------------------------------------------------------------
// Book identity
// ---------------------------------------------------------------------------

/// A path with `\` turned into `/` and ASCII letters in lower case.
pub open spec fn normalized_key(path: Seq<char>) -> Seq<char> {
    path.map_values(|c: char| ascii_lower(if c == '\\' { '/' } else { c }))
}

pub open spec fn fnv_offset_basis() -> u32 {
    0x811C9DC5u32
}

pub open spec fn fnv_prime() -> u32 {
    0x01000193u32
}

/// The 32-bit FNV-1a hash of a byte sequence.
pub open spec fn fnv1a(bytes: Seq<u8>) -> u32
    decreases bytes.len(),
{
    if bytes.len() == 0 {
        fnv_offset_basis()
    } else {
        let h = fnv1a(bytes.drop_last()) ^ (bytes.last() as u32);
        ((h as nat * fnv_prime() as nat) % 0x1_0000_0000) as u32
    }
}

/// The 4-bit digit of `v` at position `k` (0 is the least significant).
pub open spec fn nibble(v: u32, k: int) -> u32 {
    (v >> ((4 * k) as u32)) & 0xfu32
}

/// The eight lower-case hexadecimal digits of `v`, most significant first.
pub open spec fn hex8(v: u32) -> Seq<char> {
    Seq::new(8, |i: int| hex_char(nibble(v, 7 - i) as int))
}

/// The id of the book at `path`: `bk-` and the hexadecimal FNV-1a hash of the
/// normalized path's UTF-8 bytes.
pub open spec fn fingerprint(path: Seq<char>) -> Seq<char> {
    seq!['b', 'k', '-'] + hex8(fnv1a(encode_utf8(normalized_key(path))))
}

#[derive(Clone, Debug, PartialEq, Eq)]
pub struct BookId(pub String);

impl View for BookId {
    type V = Seq<char>;

    open spec fn view(&self) -> Seq<char> {
        self.0@
    }
}

impl BookId {
    pub fn from_path(path: &str) -> (r: BookId)
        ensures
            r@ == fingerprint(path@),
    {
        BookId(fingerprint_path(path))
    }

    pub fn as_str(&self) -> (r: &str)
        ensures
            r@ == self@,
    {
        self.0.as_str()
    }
}

/// The key under which a path is identified: `\` becomes `/`, ASCII letters become
/// lower case.
pub fn normalized_path_key(path: &str) -> (r: String)
    ensures
        r@ == normalized_key(path@),
{
    let chars = chars_of(path);
    let mut out = String::new();
    for i in 0..chars.len()
        invariant
            chars@ == path@,
            out@ == normalized_key(path@).take(i as int),
    {
        let ch = chars[i];
        let c = if ch == '\\' { '/' } else { ch };
        push_char(&mut out, to_ascii_lower(c));
        assert(normalized_key(path@).take(i + 1) == normalized_key(path@).take(i as int).push(
            ascii_lower(c),
        ));
    }
    assert(normalized_key(path@).take(chars.len() as int) == normalized_key(path@));
    out
}

/// Appends the eight lower-case hexadecimal digits of `value`.
fn append_hex_u32(out: &mut String, value: u32)
    ensures
        final(out)@ == old(out)@ + hex8(value),
{
    let ghost start = out@;
    let mut k: u32 = 8;
    while k > 0
        invariant
            k <= 8,
            out@ == start + hex8(value).take(8 - k),
        decreases k,
    {
        k = k - 1;
        let shift = 4 * k;
        let idx = (value >> shift) & 0x0f;
        assert((value >> shift) & 0x0f < 16) by (bit_vector);
        assert(idx == nibble(value, k as int));
        push_char(out, hex_to_char(idx));
        assert(hex8(value).take(8 - k) == hex8(value).take(8 - k - 1).push(hex8(value)[7 - k]));
    }
    assert(hex8(value).take(8) == hex8(value));
}

/// The book id text of a path.
pub fn fingerprint_path(path: &str) -> (r: String)
    ensures
        r@ == fingerprint(path@),
{
    let normalized = normalized_path_key(path);
    let bytes = normalized.as_str().as_bytes();
    let ghost b = encode_utf8(normalized_key(path@));
    assert(bytes@ == b);
    let mut hash: u32 = 0x811C9DC5;
    for i in 0..bytes.len()
        invariant
            bytes@ == b,
            hash == fnv1a(b.take(i as int)),
    {
        assert(b.take(i + 1).drop_last() == b.take(i as int));
        hash = hash ^ (bytes[i] as u32);
        hash = hash.wrapping_mul(0x01000193);
    }
    assert(b.take(bytes.len() as int) == b);
    let mut out = String::new();
    push_char(&mut out, 'b');
    push_char(&mut out, 'k');
    push_char(&mut out, '-');
    append_hex_u32(&mut out, hash);
    out
}

// ---------------------------------------------------------------------------
// Display titles
// ---------------------------------------------------------------------------

/// The index of the last `c` in `s`, or -1.
pub open spec fn last_index_of(s: Seq<char>, c: char) -> int
    decreases s.len(),
{
    if s.len() == 0 {
        -1
    } else if s.last() == c {
        s.len() - 1
    } else {
        last_index_of(s.drop_last(), c)
    }
}

/// The part of a path after its last `/`, when there is such a part; else the path.
pub open spec fn title_of(path: Seq<char>) -> Seq<char> {
    let k = last_index_of(path, '/');
    if k >= 0 && k + 1 < path.len() {
        path.skip(k + 1)
    } else {
        path
    }
}

pub fn display_title(path: &str) -> (r: String)
    ensures
        r@ == title_of(path@),
{
    let chars = chars_of(path);
    let n = chars.len();
    let mut k: usize = n;
    assert(path@.take(n as int) == path@);
    while k > 0 && chars[k - 1] != '/'
        invariant
            k <= n,
            n == path@.len(),
            chars@ == path@,
            last_index_of(path@, '/') == last_index_of(path@.take(k as int), '/'),
        decreases k,
    {
        assert(path@.take(k as int).drop_last() == path@.take(k - 1));
        k = k - 1;
    }
    if k > 0 {
        assert(path@.take(k as int).last() == '/');
        assert(last_index_of(path@, '/') == k - 1);
        if k < n {
            let mut out = String::new();
            let mut i: usize = k;
            while i < n
                invariant
                    k <= i <= n,
                    n == path@.len(),
                    chars@ == path@,
                    out@ == path@.subrange(k as int, i as int),
                decreases n - i,
            {
                push_char(&mut out, chars[i]);
                assert(path@.subrange(k as int, i + 1) == path@.subrange(k as int, i as int).push(
                    path@[i as int],
                ));
                i = i + 1;
            }
            return out;
        }
    } else {
        assert(path@.take(0) == Seq::<char>::empty());
    }
    string_from(path)
}

// ---------------------------------------------------------------------------
// Storage layout
// ---------------------------------------------------------------------------

pub const STATE_DIR: &'static str = "state";

pub const CACHE_DIR: &'static str = "cache";

pub const FINGERPRINT_KIND: &'static str = "path-v2";

pub const RECENT_RECORD_FILE: &'static str = "recent.txt";

pub const PROGRESS_RECORD_FILE: &'static str = "progress.txt";

pub const BOOKMARKS_RECORD_FILE: &'static str = "BMARKS.TXT";

pub const THEME_RECORD_FILE: &'static str = "theme.txt";

pub const META_RECORD_FILE: &'static str = "meta.txt";

pub const BOOKMARKS_INDEX_FILE: &'static str = "BMIDX.TXT";

pub const BOOKMARK_JUMP_PREFIX: &'static str = "BMJ";

pub const THEME_NAMES: [&'static str; 3] = ["Default", "Classic", "Serif"];

pub fn state_root() -> (r: &'static str)
    ensures
        r@ == STATE_DIR@,
{
    STATE_DIR
}

pub fn cache_root() -> (r: &'static str)
    ensures
        r@ == CACHE_DIR@,
{
    CACHE_DIR
}

pub fn recent_record_file() -> (r: &'static str)
    ensures
        r@ == RECENT_RECORD_FILE@,
{
    RECENT_RECORD_FILE
}

/// `cache/<id>`.
pub open spec fn cache_dir_of(id: Seq<char>) -> Seq<char> {
    CACHE_DIR@.push('/') + id
}

/// `<dir>/<name>`: a file in the book's cache directory.
pub open spec fn cache_file_of(id: Seq<char>, name: Seq<char>) -> Seq<char> {
    cache_dir_of(id).push('/') + name
}

pub fn cache_dir_for(book_id: &BookId) -> (r: String)
    ensures
        r@ == cache_dir_of(book_id@),
{
    let mut out = string_from(cache_root());
    push_char(&mut out, '/');
    push_str(&mut out, book_id.as_str());
    out
}

/// The directory that older builds used for a book: the bare id.
pub fn legacy_cache_dir_for(book_id: &BookId) -> (r: String)
    ensures
        r@ == book_id@,
{
    string_from(book_id.as_str())
}

/// The directories where a book's cache may be, the current layout first.
pub fn candidate_cache_dirs_for(book_id: &BookId) -> (r: Vec<String>)
    ensures
        r@.len() == 2,
        r@[0]@ == cache_dir_of(book_id@),
        r@[1]@ == book_id@,
{
    let mut v: Vec<String> = Vec::new();
    v.push(cache_dir_for(book_id));
    v.push(legacy_cache_dir_for(book_id));
    v
}

fn cache_file_for(book_id: &BookId, name: &str) -> (r: String)
    ensures
        r@ == cache_file_of(book_id@, name@),
{
    let mut out = cache_dir_for(book_id);
    push_char(&mut out, '/');
    push_str(&mut out, name);
    out
}

pub fn theme_file_for(book_id: &BookId) -> (r: String)
    ensures
        r@ == cache_file_of(book_id@, THEME_RECORD_FILE@),
{
    cache_file_for(book_id, THEME_RECORD_FILE)
}

pub fn progress_file_for(book_id: &BookId) -> (r: String)
    ensures
        r@ == cache_file_of(book_id@, PROGRESS_RECORD_FILE@),
{
    cache_file_for(book_id, PROGRESS_RECORD_FILE)
}

pub fn bookmarks_file_for(book_id: &BookId) -> (r: String)
    ensures
        r@ == cache_file_of(book_id@, BOOKMARKS_RECORD_FILE@),
{
    cache_file_for(book_id, BOOKMARKS_RECORD_FILE)
}

pub fn meta_file_for(book_id: &BookId) -> (r: String)
    ensures
        r@ == cache_file_of(book_id@, META_RECORD_FILE@),
{
    cache_file_for(book_id, META_RECORD_FILE)
}

/// The content of a bookmarks file that holds no bookmark.
pub fn empty_bookmarks_payload() -> (r: &'static [u8])
    ensures
        r@.len() == 0,
{
    &[]
}

/// An id without its `bk-` prefix, if it has one.
pub open spec fn strip_bk_prefix(id: Seq<char>) -> Seq<char> {
    if id.len() >= 3 && id.take(3) == seq!['b', 'k', '-'] {
        id.skip(3)
    } else {
        id
    }
}

/// The hexadecimal digits of `s`, in order, in upper case.
pub open spec fn upper_hex_digits(s: Seq<char>) -> Seq<char>
    decreases s.len(),
{
    if s.len() == 0 {
        seq![]
    } else if is_hex_digit(s.last()) {
        upper_hex_digits(s.drop_last()).push(ascii_upper(s.last()))
    } else {
        upper_hex_digits(s.drop_last())
    }
}

/// The first eight characters, with `0` added at the end while there are fewer.
pub open spec fn pad8(h: Seq<char>) -> Seq<char> {
    if h.len() >= 8 {
        h.take(8)
    } else {
        h + Seq::new((8 - h.len()) as nat, |i: int| '0')
    }
}

/// The 8.3 name of a book's bookmark file: eight upper-case hexadecimal digits taken from
/// the id (after `bk-`), padded with `0`, and `.BKM`.
pub open spec fn bookmark_file_of(id: Seq<char>) -> Seq<char> {
    pad8(upper_hex_digits(strip_bk_prefix(id))) + seq!['.', 'B', 'K', 'M']
}

/// FAT-safe 8.3 bookmark record file name: per-book bookmarks are stored flat under
/// `STATE_DIR` as `<8hex>.BKM`, for example `8A79A61F.BKM` for the id `bk-8a79a61f`.
pub fn bookmark_record_file_for(book_id: &BookId) -> (r: String)
    ensures
        r@ == bookmark_file_of(book_id@),
        r@.len() == 12,
{
    let id = chars_of(book_id.as_str());
    let n = id.len();
    let start: usize = if n >= 3 && id[0] == 'b' && id[1] == 'k' && id[2] == '-' {
        3
    } else {
        0
    };
    let ghost raw = strip_bk_prefix(book_id@);
    assert(raw == id@.skip(start as int)) by {
        if n >= 3 && id@.take(3) == seq!['b', 'k', '-'] {
            assert(id@.take(3)[0] == id@[0] && id@.take(3)[1] == id@[1] && id@.take(3)[2]
                == id@[2]);
        }
        if start == 3 {
            assert(id@.take(3) == seq!['b', 'k', '-']);
        }
    }
    let mut stem: Vec<char> = Vec::new();
    let mut i: usize = start;
    assert(raw.take(0) == Seq::<char>::empty());
    while i < n
        invariant
            start <= i <= n,
            n == id@.len(),
            raw == id@.skip(start as int),
            stem@ == (if upper_hex_digits(raw.take(i - start)).len() >= 8 {
                upper_hex_digits(raw.take(i - start)).take(8)
            } else {
                upper_hex_digits(raw.take(i - start))
            }),
        decreases n - i,
    {
        let ch = id[i];
        let ghost t = raw.take(i - start + 1);
        assert(t.drop_last() == raw.take(i - start));
        assert(t.last() == ch);
        if is_ascii_hexdigit(ch) && stem.len() < 8 {
            stem.push(to_ascii_upper(ch));
        }
        proof {
            let h = upper_hex_digits(raw.take(i - start));
            if is_hex_digit(ch) && h.len() >= 8 {
                assert(h.push(ascii_upper(ch)).take(8) == h.take(8));
            }
        }
        i = i + 1;
    }
    assert(raw.take(n - start) == raw);
    while stem.len() < 8
        invariant
            stem@.len() <= 8,
            upper_hex_digits(raw).len() < 8 ==> stem@ == pad8(upper_hex_digits(raw)).take(
                stem@.len() as int,
            ),
            upper_hex_digits(raw).len() < 8 ==> stem@.len() >= upper_hex_digits(raw).len(),
            upper_hex_digits(raw).len() >= 8 ==> stem@ == pad8(upper_hex_digits(raw)),
        decreases 8 - stem.len(),
    {
        let ghost k = stem@.len() as int;
        let ghost h = upper_hex_digits(raw);
        assert(h.len() < 8);
        assert(pad8(h)[k] == '0');
        stem.push('0');
        assert(pad8(upper_hex_digits(raw)).take(k + 1) == pad8(upper_hex_digits(raw)).take(
            k,
        ).push('0'));
    }
    assert(stem@ == pad8(upper_hex_digits(raw)));
    let mut out = string_from_chars(&stem);
    push_str(&mut out, ".BKM");
    proof {
        reveal_strlit(".BKM");
        assert(".BKM"@ == seq!['.', 'B', 'K', 'M']);
    }
    out
}

/// The index of the first theme name equal to `name` up to ASCII case, or 0.
pub open spec fn theme_index_of(name: Seq<char>) -> u8 {
    if eq_ignore_ascii_case(name, THEME_NAMES[0]@) {
        0
    } else if eq_ignore_ascii_case(name, THEME_NAMES[1]@) {
        1
    } else if eq_ignore_ascii_case(name, THEME_NAMES[2]@) {
        2
    } else {
        0
    }
}

/// Equality up to the case of ASCII letters.
pub open spec fn eq_ignore_ascii_case(a: Seq<char>, b: Seq<char>) -> bool {
    a.len() == b.len() && forall|i: int| 0 <= i < a.len() ==> ascii_lower(#[trigger] a[i])
        == ascii_lower(b[i])
}

fn eq_ignore_ascii_case_chars(a: &Vec<char>, b: &Vec<char>) -> (r: bool)
    ensures
        r == eq_ignore_ascii_case(a@, b@),
{
    if a.len() != b.len() {
        return false;
    }
    for i in 0..a.len()
        invariant
            a@.len() == b@.len(),
            forall|k: int| 0 <= k < i ==> ascii_lower(#[trigger] a@[k]) == ascii_lower(b@[k]),
    {
        if to_ascii_lower(a[i]) != to_ascii_lower(b[i]) {
            return false;
        }
    }
    true
}

pub fn theme_idx_from_name(name: &str) -> (r: u8)
    ensures
        r == theme_index_of(name@),
{
    let chars = chars_of(name);
    let mut idx: usize = 0;
    while idx < 3
        invariant
            idx <= 3,
            chars@ == name@,
            forall|k: int| 0 <= k < idx ==> !eq_ignore_ascii_case(name@, #[trigger] THEME_NAMES[k]@),
        decreases 3 - idx,
    {
        let candidate = chars_of(THEME_NAMES[idx]);
        if eq_ignore_ascii_case_chars(&chars, &candidate) {
            return idx as u8;
        }
        idx = idx + 1;
    }
    0
}

// ---------------------------------------------------------------------------
// Record fields
// ---------------------------------------------------------------------------

/// A text without `%` holds no escape sequence.
pub proof fn lemma_no_percent(s: Seq<char>)
    requires
        forall|i: int| 0 <= i < s.len() ==> s[i] != '%',
    ensures
        !has_escape_sequence(s),
{
    assert forall|i: int| !escape_at(s, i) by {
        if escape_at(s, i) {
            assert(s[i] == '%');
        }
    }
}

pub proof fn lemma_plain_number(n: nat)
    ensures
        !has_escape_sequence(decimal(n)),
        decimal(n).len() > 0,
{
    crate::text::lemma_decimal_digits(n);
    lemma_no_percent(decimal(n));
}

pub proof fn lemma_plain_format(f: ReaderFormat)
    ensures
        !has_escape_sequence(format_name(f)),
{
    lemma_no_percent(format_name(f));
}

/// Appends a number as one field.
fn push_number_field(out: &mut String, n: u64)
    ensures
        final(out)@ == crate::fields::with_field(old(out)@, decimal(n as nat)),
{
    let d = decimal_string(n);
    push_field(out, d.as_str());
}

/// The field at index `k`, as a string.
fn field_string(fields: &Vec<Vec<char>>, k: usize) -> (r: String)
    requires
        k < fields@.len(),
    ensures
        r@ == fields@[k as int]@,
{
    string_from_chars(&fields[k])
}

/// The views of decoded fields are the decoded field texts.
proof fn lemma_field_views(fields: Seq<Vec<char>>, fs: Seq<Seq<char>>)
    requires
        fields.map_values(|p: Vec<char>| p@) == fs,
    ensures
        fields.len() == fs.len(),
        forall|k: int| 0 <= k < fs.len() ==> #[trigger] fields[k]@ == fs[k],
{
    assert(fields.len() == fs.len()) by {
        assert(fields.map_values(|p: Vec<char>| p@).len() == fields.len());
    }
    assert forall|k: int| 0 <= k < fs.len() implies #[trigger] fields[k]@ == fs[k] by {
        assert(fields.map_values(|p: Vec<char>| p@)[k] == fields[k]@);
    }
}

// ---------------------------------------------------------------------------
// Recently opened book
// ---------------------------------------------------------------------------

#[derive(Clone, Debug, PartialEq, Eq)]
pub struct RecentBookRecord {
    pub book_id: BookId,
    pub source_path: String,
    pub display_title: String,
    pub format: ReaderFormat,
    pub chapter: u16,
    pub page: u32,
    pub byte_offset: u32,
}

pub struct RecentBookView {
    pub book_id: Seq<char>,
    pub source_path: Seq<char>,
    pub display_title: Seq<char>,
    pub format: ReaderFormat,
    pub chapter: u16,
    pub page: u32,
    pub byte_offset: u32,
}

impl View for RecentBookRecord {
    type V = RecentBookView;

    open spec fn view(&self) -> RecentBookView {
        RecentBookView {
            book_id: self.book_id@,
            source_path: self.source_path@,
            display_title: self.display_title@,
            format: self.format,
            chapter: self.chapter,
            page: self.page,
            byte_offset: self.byte_offset,
        }
    }
}

/// The fields of a recent-book line, in order.
pub open spec fn recent_fields(r: RecentBookView) -> Seq<Seq<char>> {
    seq![
        r.book_id,
        r.source_path,
        r.display_title,
        format_name(r.format),
        decimal(r.chapter as nat),
        decimal(r.page as nat),
        decimal(r.byte_offset as nat),
    ]
}

/// The record that seven decoded fields describe.
pub open spec fn recent_from_fields(f: Seq<Seq<char>>) -> Option<RecentBookView> {
    if f.len() != 7 {
        None
    } else {
        match (
            parse_unsigned(f[4], u16::MAX as int),
            parse_unsigned(f[5], u32::MAX as int),
            parse_unsigned(f[6], u32::MAX as int),
        ) {
            (Some(chapter), Some(page), Some(byte_offset)) => Some(
                RecentBookView {
                    book_id: f[0],
                    source_path: f[1],
                    display_title: f[2],
                    format: format_from_name(f[3]),
                    chapter: chapter as u16,
                    page: page as u32,
                    byte_offset: byte_offset as u32,
                },
            ),
            _ => None,
        }
    }
}

impl RecentBookRecord {
    pub fn from_path(path: &str) -> (r: RecentBookRecord)
        ensures
            r@ == (RecentBookView {
                book_id: fingerprint(path@),
                source_path: path@,
                display_title: title_of(path@),
                format: format_of_path(path@),
                chapter: 0,
                page: 0,
                byte_offset: 0,
            }),
    {
        RecentBookRecord {
            book_id: BookId::from_path(path),
            source_path: string_from(path),
            display_title: display_title(path),
            format: ReaderFormat::from_path(path),
            chapter: 0,
            page: 0,
            byte_offset: 0,
        }
    }

    pub fn encode_line(&self) -> (r: String)
        ensures
            r@ == encode_fields(recent_fields(self@)),
    {
        let ghost fs = recent_fields(self@);
        let mut line = String::new();
        proof { lemma_encode_fields_take(fs, 0); }
        push_field(&mut line, self.book_id.as_str());
        proof { lemma_encode_fields_take(fs, 1); }
        push_field(&mut line, self.source_path.as_str());
        proof { lemma_encode_fields_take(fs, 2); }
        push_field(&mut line, self.display_title.as_str());
        proof { lemma_encode_fields_take(fs, 3); }
        push_field(&mut line, self.format.as_str());
        proof { lemma_encode_fields_take(fs, 4); }
        push_number_field(&mut line, self.chapter as u64);
        proof { lemma_encode_fields_take(fs, 5); }
        push_number_field(&mut line, self.page as u64);
        proof { lemma_encode_fields_take(fs, 6); }
        push_number_field(&mut line, self.byte_offset as u64);
        line
    }

    pub fn decode_line(line: &str) -> (r: Option<RecentBookRecord>)
        ensures
            match r {
                Some(x) => recent_from_fields(split_fields(line@)) == Some(x@),
                None => recent_from_fields(split_fields(line@)) is None,
            },
    {
        let fields = split_line_fields(line);
        let ghost fs = split_fields(line@);
        proof {
            lemma_field_views(fields@, fs);
        }
        if fields.len() != 7 {
            return None;
        }
        let chapter = match parse_unsigned_chars(&fields[4], 65535) {
            Some(v) => v as u16,
            None => return None,
        };
        let page = match parse_unsigned_chars(&fields[5], 4294967295) {
            Some(v) => v as u32,
            None => return None,
        };
        let byte_offset = match parse_unsigned_chars(&fields[6], 4294967295) {
            Some(v) => v as u32,
            None => return None,
        };
        Some(
            RecentBookRecord {
                book_id: BookId(field_string(&fields, 0)),
                source_path: field_string(&fields, 1),
                display_title: field_string(&fields, 2),
                format: format_from_chars(&fields[3]),
                chapter,
                page,
                byte_offset,
            },
        )
    }
}

/// Decoding an encoded recent-book line gives the record back, when its id is not empty
/// and none of its texts holds an escape sequence.
pub proof fn lemma_recent_roundtrip(r: RecentBookView)
    requires
        r.book_id.len() > 0,
        !has_escape_sequence(r.book_id),
        !has_escape_sequence(r.source_path),
        !has_escape_sequence(r.display_title),
    ensures
        recent_from_fields(split_fields(encode_fields(recent_fields(r)))) == Some(r),
{
    let fs = recent_fields(r);
    lemma_plain_format(r.format);
    lemma_plain_number(r.chapter as nat);
    lemma_plain_number(r.page as nat);
    lemma_plain_number(r.byte_offset as nat);
    lemma_split_encode_fields(fs);
    lemma_format_name_roundtrip(r.format);
    crate::text::lemma_parse_decimal(r.chapter as nat, u16::MAX as int);
    crate::text::lemma_parse_decimal(r.page as nat, u32::MAX as int);
    crate::text::lemma_parse_decimal(r.byte_offset as nat, u32::MAX as int);
}

// ---------------------------------------------------------------------------
// Reading progress
// ---------------------------------------------------------------------------

#[derive(Clone, Debug, PartialEq, Eq)]
pub struct ReadingProgressRecord {
    pub book_id: BookId,
    pub source_path: String,
    pub format: ReaderFormat,
    pub chapter: u16,
    pub page: u32,
    pub byte_offset: u32,
    pub font_size_idx: u8,
}

pub struct ReadingProgressView {
    pub book_id: Seq<char>,
    pub source_path: Seq<char>,
    pub format: ReaderFormat,
    pub chapter: u16,
    pub page: u32,
    pub byte_offset: u32,
    pub font_size_idx: u8,
}

impl View for ReadingProgressRecord {
    type V = ReadingProgressView;

    open spec fn view(&self) -> ReadingProgressView {
        ReadingProgressView {
            book_id: self.book_id@,
            source_path: self.source_path@,
            format: self.format,
            chapter: self.chapter,
            page: self.page,
            byte_offset: self.byte_offset,
            font_size_idx: self.font_size_idx,
        }
    }
}

/// The fields of a progress line, in order.
pub open spec fn progress_fields(r: ReadingProgressView) -> Seq<Seq<char>> {
    seq![
        r.book_id,
        r.source_path,
        format_name(r.format),
        decimal(r.chapter as nat),
        decimal(r.page as nat),
        decimal(r.byte_offset as nat),
        decimal(r.font_size_idx as nat),
    ]
}

/// The record that seven decoded fields describe; the font size index is read as a
/// 16-bit number and keeps its low 8 bits.
pub open spec fn progress_from_fields(f: Seq<Seq<char>>) -> Option<ReadingProgressView> {
    if f.len() != 7 {
        None
    } else {
        match (
            parse_unsigned(f[3], u16::MAX as int),
            parse_unsigned(f[4], u32::MAX as int),
            parse_unsigned(f[5], u32::MAX as int),
            parse_unsigned(f[6], u16::MAX as int),
        ) {
            (Some(chapter), Some(page), Some(byte_offset), Some(font)) => Some(
                ReadingProgressView {
                    book_id: f[0],
                    source_path: f[1],
                    format: format_from_name(f[2]),
                    chapter: chapter as u16,
                    page: page as u32,
                    byte_offset: byte_offset as u32,
                    font_size_idx: (font % 256) as u8,
                },
            ),
            _ => None,
        }
    }
}

impl ReadingProgressRecord {
    pub fn new(path: &str, chapter: u16, page: u32, byte_offset: u32, font_size_idx: u8) -> (r:
        ReadingProgressRecord)
        ensures
            r@ == (ReadingProgressView {
                book_id: fingerprint(path@),
                source_path: path@,
                format: format_of_path(path@),
                chapter,
                page,
                byte_offset,
                font_size_idx,
            }),
    {
        ReadingProgressRecord {
            book_id: BookId::from_path(path),
            source_path: string_from(path),
            format: ReaderFormat::from_path(path),
            chapter,
            page,
            byte_offset,
            font_size_idx,
        }
    }

    pub fn encode_line(&self) -> (r: String)
        ensures
            r@ == encode_fields(progress_fields(self@)),
    {
        let ghost fs = progress_fields(self@);
        let mut line = String::new();
        proof { lemma_encode_fields_take(fs, 0); }
        push_field(&mut line, self.book_id.as_str());
        proof { lemma_encode_fields_take(fs, 1); }
        push_field(&mut line, self.source_path.as_str());
        proof { lemma_encode_fields_take(fs, 2); }
        push_field(&mut line, self.format.as_str());
        proof { lemma_encode_fields_take(fs, 3); }
        push_number_field(&mut line, self.chapter as u64);
        proof { lemma_encode_fields_take(fs, 4); }
        push_number_field(&mut line, self.page as u64);
        proof { lemma_encode_fields_take(fs, 5); }
        push_number_field(&mut line, self.byte_offset as u64);
        proof { lemma_encode_fields_take(fs, 6); }
        push_number_field(&mut line, self.font_size_idx as u64);
        line
    }

    pub fn decode_line(line: &str) -> (r: Option<ReadingProgressRecord>)
        ensures
            match r {
                Some(x) => progress_from_fields(split_fields(line@)) == Some(x@),
                None => progress_from_fields(split_fields(line@)) is None,
            },
    {
        let fields = split_line_fields(line);
        let ghost fs = split_fields(line@);
        proof {
            lemma_field_views(fields@, fs);
        }
        if fields.len() != 7 {
            return None;
        }
        let chapter = match parse_unsigned_chars(&fields[3], 65535) {
            Some(v) => v as u16,
            None => return None,
        };
        let page = match parse_unsigned_chars(&fields[4], 4294967295) {
            Some(v) => v as u32,
            None => return None,
        };
        let byte_offset = match parse_unsigned_chars(&fields[5], 4294967295) {
            Some(v) => v as u32,
            None => return None,
        };
        let font_size_idx = match parse_unsigned_chars(&fields[6], 65535) {
            Some(v) => (v % 256) as u8,
            None => return None,
        };
        Some(
            ReadingProgressRecord {
                book_id: BookId(field_string(&fields, 0)),
                source_path: field_string(&fields, 1),
                format: format_from_chars(&fields[2]),
                chapter,
                page,
                byte_offset,
                font_size_idx,
            },
        )
    }
}

/// Decoding an encoded progress line gives the record back, when its id is not empty
/// and none of its texts holds an escape sequence.
pub proof fn lemma_progress_roundtrip(r: ReadingProgressView)
    requires
        r.book_id.len() > 0,
        !has_escape_sequence(r.book_id),
        !has_escape_sequence(r.source_path),
    ensures
        progress_from_fields(split_fields(encode_fields(progress_fields(r)))) == Some(r),
{
    let fs = progress_fields(r);
    lemma_plain_format(r.format);
    lemma_plain_number(r.chapter as nat);
    lemma_plain_number(r.page as nat);
    lemma_plain_number(r.byte_offset as nat);
    lemma_plain_number(r.font_size_idx as nat);
    lemma_split_encode_fields(fs);
    lemma_format_name_roundtrip(r.format);
    crate::text::lemma_parse_decimal(r.chapter as nat, u16::MAX as int);
    crate::text::lemma_parse_decimal(r.page as nat, u32::MAX as int);
    crate::text::lemma_parse_decimal(r.byte_offset as nat, u32::MAX as int);
    crate::text::lemma_parse_decimal(r.font_size_idx as nat, u16::MAX as int);
}

// ---------------------------------------------------------------------------
// Book metadata
// ---------------------------------------------------------------------------

#[derive(Clone, Debug, PartialEq, Eq)]
pub struct BookMetaRecord {
    pub book_id: BookId,
    pub fingerprint_kind: String,
    pub source_path: String,
    pub display_title: String,
    pub format: ReaderFormat,
}

pub struct BookMetaView {
    pub book_id: Seq<char>,
    pub fingerprint_kind: Seq<char>,
    pub source_path: Seq<char>,
    pub display_title: Seq<char>,
    pub format: ReaderFormat,
}

impl View for BookMetaRecord {
    type V = BookMetaView;

    open spec fn view(&self) -> BookMetaView {
        BookMetaView {
            book_id: self.book_id@,
            fingerprint_kind: self.fingerprint_kind@,
            source_path: self.source_path@,
            display_title: self.display_title@,
            format: self.format,
        }
    }
}

/// The fields of a metadata line, in order.
pub open spec fn meta_fields(r: BookMetaView) -> Seq<Seq<char>> {
    seq![r.book_id, r.fingerprint_kind, r.source_path, r.display_title, format_name(r.format)]
}

/// The record that five decoded fields describe.
pub open spec fn meta_from_fields(f: Seq<Seq<char>>) -> Option<BookMetaView> {
    if f.len() != 5 {
        None
    } else {
        Some(
            BookMetaView {
                book_id: f[0],
                fingerprint_kind: f[1],
                source_path: f[2],
                display_title: f[3],
                format: format_from_name(f[4]),
            },
        )
    }
}

impl BookMetaRecord {
    pub fn from_path(path: &str) -> (r: BookMetaRecord)
        ensures
            r@ == (BookMetaView {
                book_id: fingerprint(path@),
                fingerprint_kind: FINGERPRINT_KIND@,
                source_path: path@,
                display_title: title_of(path@),
                format: format_of_path(path@),
            }),
    {
        BookMetaRecord {
            book_id: BookId::from_path(path),
            fingerprint_kind: string_from(FINGERPRINT_KIND),
            source_path: string_from(path),
            display_title: display_title(path),
            format: ReaderFormat::from_path(path),
        }
    }

    pub fn encode_line(&self) -> (r: String)
        ensures
            r@ == encode_fields(meta_fields(self@)),
    {
        let ghost fs = meta_fields(self@);
        let mut line = String::new();
        proof { lemma_encode_fields_take(fs, 0); }
        push_field(&mut line, self.book_id.as_str());
        proof { lemma_encode_fields_take(fs, 1); }
        push_field(&mut line, self.fingerprint_kind.as_str());
        proof { lemma_encode_fields_take(fs, 2); }
        push_field(&mut line, self.source_path.as_str());
        proof { lemma_encode_fields_take(fs, 3); }
        push_field(&mut line, self.display_title.as_str());
        proof { lemma_encode_fields_take(fs, 4); }
        push_field(&mut line, self.format.as_str());
        line
    }

    pub fn decode_line(line: &str) -> (r: Option<BookMetaRecord>)
        ensures
            match r {
                Some(x) => meta_from_fields(split_fields(line@)) == Some(x@),
                None => meta_from_fields(split_fields(line@)) is None,
            },
    {
        let fields = split_line_fields(line);
        let ghost fs = split_fields(line@);
        proof {
            lemma_field_views(fields@, fs);
        }
        if fields.len() != 5 {
            return None;
        }
        Some(
            BookMetaRecord {
                book_id: BookId(field_string(&fields, 0)),
                fingerprint_kind: field_string(&fields, 1),
                source_path: field_string(&fields, 2),
                display_title: field_string(&fields, 3),
                format: format_from_chars(&fields[4]),
            },
        )
    }
}

/// Decoding an encoded metadata line gives the record back, when its id is not empty
/// and none of its texts holds an escape sequence.
pub proof fn lemma_meta_roundtrip(r: BookMetaView)
    requires
        r.book_id.len() > 0,
        !has_escape_sequence(r.book_id),
        !has_escape_sequence(r.fingerprint_kind),
        !has_escape_sequence(r.source_path),
        !has_escape_sequence(r.display_title),
    ensures
        meta_from_fields(split_fields(encode_fields(meta_fields(r)))) == Some(r),
{
    lemma_plain_format(r.format);
    lemma_split_encode_fields(meta_fields(r));
    lemma_format_name_roundtrip(r.format);
}

// ---------------------------------------------------------------------------
// Bookmarks
// ---------------------------------------------------------------------------

#[derive(Clone, Debug, PartialEq, Eq)]
pub struct BookmarkRecord {
    pub book_id: BookId,
    pub source_path: String,
    pub chapter: u16,
    pub byte_offset: u32,
    pub label: String,
}

pub struct BookmarkView {
    pub book_id: Seq<char>,
    pub source_path: Seq<char>,
    pub chapter: u16,
    pub byte_offset: u32,
    pub label: Seq<char>,
}

impl View for BookmarkRecord {
    type V = BookmarkView;

    open spec fn view(&self) -> BookmarkView {
        BookmarkView {
            book_id: self.book_id@,
            source_path: self.source_path@,
            chapter: self.chapter,
            byte_offset: self.byte_offset,
            label: self.label@,
        }
    }
}

/// The fields of a bookmark line, in order.
pub open spec fn bookmark_fields(r: BookmarkView) -> Seq<Seq<char>> {
    seq![
        r.book_id,
        r.source_path,
        decimal(r.chapter as nat),
        decimal(r.byte_offset as nat),
        r.label,
    ]
}

/// The line of a bookmark.
pub open spec fn bookmark_line(r: BookmarkView) -> Seq<char> {
    encode_fields(bookmark_fields(r))
}

/// The bookmark that five decoded fields describe.
pub open spec fn bookmark_from_fields(f: Seq<Seq<char>>) -> Option<BookmarkView> {
    if f.len() != 5 {
        None
    } else {
        match (parse_unsigned(f[2], u16::MAX as int), parse_unsigned(f[3], u32::MAX as int)) {
            (Some(chapter), Some(byte_offset)) => Some(
                BookmarkView {
                    book_id: f[0],
                    source_path: f[1],
                    chapter: chapter as u16,
                    byte_offset: byte_offset as u32,
                    label: f[4],
                },
            ),
            _ => None,
        }
    }
}

/// The text shown for a bookmark: its trimmed label, or its chapter (counted from 1) and
/// offset.
pub open spec fn bookmark_label(r: BookmarkView) -> Seq<char> {
    let t = trim(r.label);
    if t.len() > 0 {
        t
    } else {
        "Ch "@ + decimal(r.chapter as nat + 1) + " @ "@ + decimal(r.byte_offset as nat)
    }
}

impl BookmarkRecord {
    pub fn encode_line(&self) -> (r: String)
        ensures
            r@ == bookmark_line(self@),
    {
        let ghost fs = bookmark_fields(self@);
        let mut line = String::new();
        proof { lemma_encode_fields_take(fs, 0); }
        push_field(&mut line, self.book_id.as_str());
        proof { lemma_encode_fields_take(fs, 1); }
        push_field(&mut line, self.source_path.as_str());
        proof { lemma_encode_fields_take(fs, 2); }
        push_number_field(&mut line, self.chapter as u64);
        proof { lemma_encode_fields_take(fs, 3); }
        push_number_field(&mut line, self.byte_offset as u64);
        proof { lemma_encode_fields_take(fs, 4); }
        push_field(&mut line, self.label.as_str());
        line
    }

    fn from_field_list(fields: &Vec<Vec<char>>) -> (r: Option<BookmarkRecord>)
        ensures
            match r {
                Some(x) => bookmark_from_fields(fields@.map_values(|p: Vec<char>| p@)) == Some(
                    x@,
                ),
                None => bookmark_from_fields(fields@.map_values(|p: Vec<char>| p@)) is None,
            },
    {
        let ghost fs = fields@.map_values(|p: Vec<char>| p@);
        proof {
            lemma_field_views(fields@, fs);
        }
        if fields.len() != 5 {
            return None;
        }
        let chapter = match parse_unsigned_chars(&fields[2], 65535) {
            Some(v) => v as u16,
            None => return None,
        };
        let byte_offset = match parse_unsigned_chars(&fields[3], 4294967295) {
            Some(v) => v as u32,
            None => return None,
        };
        Some(
            BookmarkRecord {
                book_id: BookId(field_string(fields, 0)),
                source_path: field_string(fields, 1),
                chapter,
                byte_offset,
                label: field_string(fields, 4),
            },
        )
    }

    pub fn decode_line(line: &str) -> (r: Option<BookmarkRecord>)
        ensures
            match r {
                Some(x) => bookmark_from_fields(split_fields(line@)) == Some(x@),
                None => bookmark_from_fields(split_fields(line@)) is None,
            },
    {
        let fields = split_line_fields(line);
        Self::from_field_list(&fields)
    }

    pub fn same_position(&self, chapter: u16, byte_offset: u32) -> (r: bool)
        ensures
            r == (self.chapter == chapter && self.byte_offset == byte_offset),
    {
        self.chapter == chapter && self.byte_offset == byte_offset
    }

    pub fn display_label(&self) -> (r: String)
        ensures
            r@ == bookmark_label(self@),
    {
        let label = chars_of(self.label.as_str());
        let trimmed = trim_chars(&label);
        if trimmed.len() > 0 {
            return string_from_chars(&trimmed);
        }
        let mut out = string_from("Ch ");
        push_decimal(&mut out, self.chapter as u64 + 1);
        push_str(&mut out, " @ ");
        push_decimal(&mut out, self.byte_offset as u64);
        out
    }
}

/// Decoding an encoded bookmark line gives the bookmark back, when its id is not empty
/// and none of its texts holds an escape sequence.
pub proof fn lemma_bookmark_roundtrip(r: BookmarkView)
    requires
        r.book_id.len() > 0,
        !has_escape_sequence(r.book_id),
        !has_escape_sequence(r.source_path),
        !has_escape_sequence(r.label),
    ensures
        bookmark_from_fields(split_fields(bookmark_line(r))) == Some(r),
{
    lemma_plain_number(r.chapter as nat);
    lemma_plain_number(r.byte_offset as nat);
    lemma_split_encode_fields(bookmark_fields(r));
    crate::text::lemma_parse_decimal(r.chapter as nat, u16::MAX as int);
    crate::text::lemma_parse_decimal(r.byte_offset as nat, u32::MAX as int);
}

/// The bookmarks that the lines describe: blank lines and lines that do not decode are
/// skipped, the others are read after trimming.
pub open spec fn bookmarks_from_lines(ls: Seq<Seq<char>>) -> Seq<BookmarkView>
    decreases ls.len(),
{
    if ls.len() == 0 {
        seq![]
    } else {
        let prev = bookmarks_from_lines(ls.drop_last());
        let t = trim(ls.last());
        if t.len() == 0 {
            prev
        } else {
            match bookmark_from_fields(split_fields(t)) {
                Some(b) => prev.push(b),
                None => prev,
            }
        }
    }
}

/// The payload of a bookmarks file: one line per bookmark.
pub open spec fn bookmarks_payload(bs: Seq<BookmarkView>) -> Seq<char> {
    join(bs.map_values(|b: BookmarkView| bookmark_line(b)), '\n')
}

pub fn decode_bookmarks(payload: &str) -> (r: Vec<BookmarkRecord>)
    ensures
        r@.map_values(|b: BookmarkRecord| b@) == bookmarks_from_lines(lines_of(payload@)),
{
    let lines = split_lines(payload);
    let ghost ls = lines_of(payload@);
    proof {
        lemma_field_views(lines@, ls);
    }
    let mut out: Vec<BookmarkRecord> = Vec::new();
    for i in 0..lines.len()
        invariant
            lines@.len() == ls.len(),
            forall|k: int| 0 <= k < ls.len() ==> #[trigger] lines@[k]@ == ls[k],
            out@.map_values(|b: BookmarkRecord| b@) == bookmarks_from_lines(ls.take(i as int)),
    {
        let ghost before = out@.map_values(|b: BookmarkRecord| b@);
        assert(ls.take(i + 1).drop_last() == ls.take(i as int));
        assert(ls.take(i + 1).last() == ls[i as int]);
        let trimmed = trim_chars(&lines[i]);
        if trimmed.len() > 0 {
            let fields = split_fields_of(&trimmed);
            match BookmarkRecord::from_field_list(&fields) {
                Some(b) => {
                    out.push(b);
                    assert(out@.map_values(|b: BookmarkRecord| b@) =~= before.push(b@));
                },
                None => {},
            }
        }
    }
    assert(ls.take(lines.len() as int) == ls);
    out
}

pub fn encode_bookmarks(bookmarks: &[BookmarkRecord]) -> (r: String)
    ensures
        r@ == bookmarks_payload(bookmarks@.map_values(|b: BookmarkRecord| b@)),
{
    let ghost ls = bookmarks@.map_values(|b: BookmarkRecord| bookmark_line(b@));
    assert(bookmarks_payload(bookmarks@.map_values(|b: BookmarkRecord| b@)) == join(ls, '\n'))
        by {
        assert(bookmarks@.map_values(|b: BookmarkRecord| b@).map_values(
            |b: BookmarkView| bookmark_line(b),
        ) =~= ls);
    }
    let mut out = String::new();
    for idx in 0..bookmarks.len()
        invariant
            ls.len() == bookmarks@.len(),
            forall|k: int| 0 <= k < ls.len() ==> #[trigger] ls[k] == bookmark_line(bookmarks@[k]@),
            out@ == join(ls.take(idx as int), '\n'),
    {
        proof {
            lemma_join_take(ls, idx as int, '\n');
        }
        if idx > 0 {
            push_char(&mut out, '\n');
        }
        let line = bookmarks[idx].encode_line();
        push_str(&mut out, line.as_str());
        assert(idx == 0 ==> out@ == ls[0]);
    }
    proof {
        if ls.len() > 0 {
            lemma_join_take(ls, 0, '\n');
        } else {
            assert(ls.take(0) == ls);
        }
    }
    out
}

/// Reading the bookmarks back from their payload gives them all, in order, when each has a
/// non-empty id that does not begin with whitespace, a label that does not end with
/// whitespace (a newline or carriage return there is escaped, and counts as neither), and none of their texts holds an escape sequence.
pub proof fn lemma_bookmarks_roundtrip(bs: Seq<BookmarkView>)
    requires
        forall|i: int|
            0 <= i < bs.len() ==> {
                &&& (#[trigger] bs[i]).book_id.len() > 0
                &&& !char_is_whitespace(bs[i].book_id[0]) || is_escaped(bs[i].book_id[0])
                &&& bs[i].label.len() > 0 ==> !char_is_whitespace(bs[i].label.last())
                    || is_escaped(bs[i].label.last())
                &&& !has_escape_sequence(bs[i].book_id)
                &&& !has_escape_sequence(bs[i].source_path)
                &&& !has_escape_sequence(bs[i].label)
            },
    ensures
        bookmarks_from_lines(lines_of(bookmarks_payload(bs))) == bs,
{
    let ls = bs.map_values(|b: BookmarkView| bookmark_line(b));
    assert forall|i: int| 0 <= i < bs.len() implies trim(bookmark_line(#[trigger] bs[i]))
        == bookmark_line(bs[i]) by {
        let fs = bookmark_fields(bs[i]);
        assert(fs.last() == bs[i].label);
        lemma_encode_fields_trimmed(fs);
    }
    assert forall|i: int| 0 <= i < ls.len() implies (#[trigger] ls[i]).len() > 0 by {
        lemma_plain_number(bs[i].chapter as nat);
        lemma_encode_fields_nonempty(bookmark_fields(bs[i]));
    }
    assert forall|i: int, k: int| 0 <= i < ls.len() && 0 <= k < ls[i].len() implies #[trigger] ls[i][k]
        != '\n' && ls[i][k] != '\r' by {
        lemma_encode_fields_single_line(bookmark_fields(bs[i]));
        assert(ls[i] == encode_fields(bookmark_fields(bs[i])));
    }
    lemma_lines_of_join(ls);
    lemma_bookmarks_from_encoded_lines(bs);
}

proof fn lemma_bookmarks_from_encoded_lines(bs: Seq<BookmarkView>)
    requires
        forall|i: int|
            0 <= i < bs.len() ==> {
                &&& (#[trigger] bs[i]).book_id.len() > 0
                &&& !has_escape_sequence(bs[i].book_id)
                &&& !has_escape_sequence(bs[i].source_path)
                &&& !has_escape_sequence(bs[i].label)
                &&& trim(bookmark_line(bs[i])) == bookmark_line(bs[i])
            },
    ensures
        bookmarks_from_lines(bs.map_values(|b: BookmarkView| bookmark_line(b))) == bs,
    decreases bs.len(),
{
    let ls = bs.map_values(|b: BookmarkView| bookmark_line(b));
    if bs.len() > 0 {
        let init = bs.drop_last();
        assert forall|i: int| 0 <= i < init.len() implies {
            &&& (#[trigger] init[i]).book_id.len() > 0
            &&& !has_escape_sequence(init[i].book_id)
            &&& !has_escape_sequence(init[i].source_path)
            &&& !has_escape_sequence(init[i].label)
            &&& trim(bookmark_line(init[i])) == bookmark_line(init[i])
        } by {
            assert(init[i] == bs[i]);
        }
        lemma_bookmarks_from_encoded_lines(init);
        assert(ls.drop_last() == init.map_values(|b: BookmarkView| bookmark_line(b)));
        let b = bs[bs.len() - 1];
        assert(ls.last() == bookmark_line(b));
        lemma_bookmark_roundtrip(b);
        lemma_plain_number(b.chapter as nat);
        lemma_encode_fields_nonempty(bookmark_fields(b));
        assert(init.push(b) == bs);
    }
}

// ---------------------------------------------------------------------------
// Bookmark index
// ---------------------------------------------------------------------------

#[derive(Clone, Debug, PartialEq, Eq)]
pub struct BookmarkIndexRecord {
    pub book_id: BookId,
    pub source_path: String,
    pub display_title: String,
    pub chapter: u16,
    pub byte_offset: u32,
    pub label: String,
}

pub struct BookmarkIndexView {
    pub book_id: Seq<char>,
    pub source_path: Seq<char>,
    pub display_title: Seq<char>,
    pub chapter: u16,
    pub byte_offset: u32,
    pub label: Seq<char>,
}

impl View for BookmarkIndexRecord {
    type V = BookmarkIndexView;

    open spec fn view(&self) -> BookmarkIndexView {
        BookmarkIndexView {
            book_id: self.book_id@,
            source_path: self.source_path@,
            display_title: self.display_title@,
            chapter: self.chapter,
            byte_offset: self.byte_offset,
            label: self.label@,
        }
    }
}

/// The fields of a bookmark index line, in order.
pub open spec fn index_fields(r: BookmarkIndexView) -> Seq<Seq<char>> {
    seq![
        r.book_id,
        r.source_path,
        r.display_title,
        decimal(r.chapter as nat),
        decimal(r.byte_offset as nat),
        r.label,
    ]
}

/// The line of a bookmark index entry.
pub open spec fn index_line(r: BookmarkIndexView) -> Seq<char> {
    encode_fields(index_fields(r))
}

/// The entry that the decoded fields describe: at least six fields, of which the first six
/// are read.
pub open spec fn index_from_fields(f: Seq<Seq<char>>) -> Option<BookmarkIndexView> {
    if f.len() < 6 {
        None
    } else {
        match (parse_unsigned(f[3], u16::MAX as int), parse_unsigned(f[4], u32::MAX as int)) {
            (Some(chapter), Some(byte_offset)) => Some(
                BookmarkIndexView {
                    book_id: f[0],
                    source_path: f[1],
                    display_title: f[2],
                    chapter: chapter as u16,
                    byte_offset: byte_offset as u32,
                    label: f[5],
                },
            ),
            _ => None,
        }
    }
}

/// The text shown for an index entry: its trimmed title (or the title of its path), then
/// its trimmed label, or its chapter (counted from 1) and offset.
pub open spec fn index_label(r: BookmarkIndexView) -> Seq<char> {
    let title = trim(r.display_title);
    let detail = trim(r.label);
    (if title.len() > 0 {
        title
    } else {
        title_of(r.source_path)
    }) + (if detail.len() > 0 {
        " · "@ + detail
    } else {
        " · Ch "@ + decimal(r.chapter as nat + 1) + " · Off "@ + decimal(r.byte_offset as nat)
    })
}

/// The fields of a jump message, in order.
pub open spec fn jump_fields(r: BookmarkIndexView) -> Seq<Seq<char>> {
    seq![
        BOOKMARK_JUMP_PREFIX@,
        r.source_path,
        decimal(r.chapter as nat),
        decimal(r.byte_offset as nat),
    ]
}

/// The path, chapter and offset that the decoded fields of a jump message name.
pub open spec fn jump_from_fields(f: Seq<Seq<char>>) -> Option<(Seq<char>, u16, u32)> {
    if f.len() != 4 || f[0] != BOOKMARK_JUMP_PREFIX@ {
        None
    } else {
        match (parse_unsigned(f[2], u16::MAX as int), parse_unsigned(f[3], u32::MAX as int)) {
            (Some(chapter), Some(byte_offset)) => Some(
                (f[1], chapter as u16, byte_offset as u32),
            ),
            _ => None,
        }
    }
}

impl BookmarkIndexRecord {
    pub fn from_bookmark(rec: &BookmarkRecord, display_title: &str) -> (r: BookmarkIndexRecord)
        ensures
            r@ == (BookmarkIndexView {
                book_id: rec.book_id@,
                source_path: rec.source_path@,
                display_title: display_title@,
                chapter: rec.chapter,
                byte_offset: rec.byte_offset,
                label: rec.label@,
            }),
    {
        BookmarkIndexRecord {
            book_id: BookId(string_from(rec.book_id.as_str())),
            source_path: string_from(rec.source_path.as_str()),
            display_title: string_from(display_title),
            chapter: rec.chapter,
            byte_offset: rec.byte_offset,
            label: string_from(rec.label.as_str()),
        }
    }

    pub fn encode_line(&self) -> (r: String)
        ensures
            r@ == index_line(self@),
    {
        let ghost fs = index_fields(self@);
        let mut line = String::new();
        proof { lemma_encode_fields_take(fs, 0); }
        push_field(&mut line, self.book_id.as_str());
        proof { lemma_encode_fields_take(fs, 1); }
        push_field(&mut line, self.source_path.as_str());
        proof { lemma_encode_fields_take(fs, 2); }
        push_field(&mut line, self.display_title.as_str());
        proof { lemma_encode_fields_take(fs, 3); }
        push_number_field(&mut line, self.chapter as u64);
        proof { lemma_encode_fields_take(fs, 4); }
        push_number_field(&mut line, self.byte_offset as u64);
        proof { lemma_encode_fields_take(fs, 5); }
        push_field(&mut line, self.label.as_str());
        line
    }

    fn from_field_list(fields: &Vec<Vec<char>>) -> (r: Option<BookmarkIndexRecord>)
        ensures
            match r {
                Some(x) => index_from_fields(fields@.map_values(|p: Vec<char>| p@)) == Some(x@),
                None => index_from_fields(fields@.map_values(|p: Vec<char>| p@)) is None,
            },
    {
        let ghost fs = fields@.map_values(|p: Vec<char>| p@);
        proof {
            lemma_field_views(fields@, fs);
        }
        if fields.len() < 6 {
            return None;
        }
        let chapter = match parse_unsigned_chars(&fields[3], 65535) {
            Some(v) => v as u16,
            None => return None,
        };
        let byte_offset = match parse_unsigned_chars(&fields[4], 4294967295) {
            Some(v) => v as u32,
            None => return None,
        };
        Some(
            BookmarkIndexRecord {
                book_id: BookId(field_string(fields, 0)),
                source_path: field_string(fields, 1),
                display_title: field_string(fields, 2),
                chapter,
                byte_offset,
                label: field_string(fields, 5),
            },
        )
    }

    pub fn decode_line(line: &str) -> (r: Option<BookmarkIndexRecord>)
        ensures
            match r {
                Some(x) => index_from_fields(split_fields(line@)) == Some(x@),
                None => index_from_fields(split_fields(line@)) is None,
            },
    {
        let fields = split_line_fields(line);
        Self::from_field_list(&fields)
    }

    pub fn display_label(&self) -> (r: String)
        ensures
            r@ == index_label(self@),
    {
        let title_chars = chars_of(self.display_title.as_str());
        let title = trim_chars(&title_chars);
        let mut out = if title.len() > 0 {
            string_from_chars(&title)
        } else {
            display_title(self.source_path.as_str())
        };
        let label_chars = chars_of(self.label.as_str());
        let detail = trim_chars(&label_chars);
        if detail.len() > 0 {
            push_str(&mut out, " · ");
            let d = string_from_chars(&detail);
            push_str(&mut out, d.as_str());
        } else {
            push_str(&mut out, " · Ch ");
            push_decimal(&mut out, self.chapter as u64 + 1);
            push_str(&mut out, " · Off ");
            push_decimal(&mut out, self.byte_offset as u64);
        }
        out
    }

    /// The message that asks the reader to open this entry's book at its position.
    pub fn jump_message(&self) -> (r: String)
        ensures
            r@ == encode_fields(jump_fields(self@)),
    {
        let ghost fs = jump_fields(self@);
        let mut line = String::new();
        proof { lemma_encode_fields_take(fs, 0); }
        push_field(&mut line, BOOKMARK_JUMP_PREFIX);
        proof { lemma_encode_fields_take(fs, 1); }
        push_field(&mut line, self.source_path.as_str());
        proof { lemma_encode_fields_take(fs, 2); }
        push_number_field(&mut line, self.chapter as u64);
        proof { lemma_encode_fields_take(fs, 3); }
        push_number_field(&mut line, self.byte_offset as u64);
        line
    }
}

/// Decoding an encoded index line gives the entry back, when its id is not empty and none
/// of its texts holds an escape sequence.
pub proof fn lemma_index_roundtrip(r: BookmarkIndexView)
    requires
        r.book_id.len() > 0,
        !has_escape_sequence(r.book_id),
        !has_escape_sequence(r.source_path),
        !has_escape_sequence(r.display_title),
        !has_escape_sequence(r.label),
    ensures
        index_from_fields(split_fields(index_line(r))) == Some(r),
{
    lemma_plain_number(r.chapter as nat);
    lemma_plain_number(r.byte_offset as nat);
    lemma_split_encode_fields(index_fields(r));
    crate::text::lemma_parse_decimal(r.chapter as nat, u16::MAX as int);
    crate::text::lemma_parse_decimal(r.byte_offset as nat, u32::MAX as int);
}

/// A jump message names the entry's path, chapter and offset, when its path holds no
/// escape sequence.
pub proof fn lemma_jump_roundtrip(r: BookmarkIndexView)
    requires
        !has_escape_sequence(r.source_path),
    ensures
        jump_from_fields(split_fields(encode_fields(jump_fields(r)))) == Some(
            (r.source_path, r.chapter, r.byte_offset),
        ),
{
    reveal_strlit("BMJ");
    assert(BOOKMARK_JUMP_PREFIX@ == seq!['B', 'M', 'J']);
    lemma_no_percent(BOOKMARK_JUMP_PREFIX@);
    lemma_plain_number(r.chapter as nat);
    lemma_plain_number(r.byte_offset as nat);
    lemma_split_encode_fields(jump_fields(r));
    crate::text::lemma_parse_decimal(r.chapter as nat, u16::MAX as int);
    crate::text::lemma_parse_decimal(r.byte_offset as nat, u32::MAX as int);
}

pub fn decode_bookmark_jump(msg: &str) -> (r: Option<(String, u16, u32)>)
    ensures
        match r {
            Some(t) => jump_from_fields(split_fields(msg@)) == Some((t.0@, t.1, t.2)),
            None => jump_from_fields(split_fields(msg@)) is None,
        },
{
    let fields = split_line_fields(msg);
    let ghost fs = split_fields(msg@);
    proof {
        lemma_field_views(fields@, fs);
    }
    if fields.len() != 4 {
        return None;
    }
    let prefix = chars_of(BOOKMARK_JUMP_PREFIX);
    if !chars_eq(&fields[0], &prefix) {
        return None;
    }
    let chapter = match parse_unsigned_chars(&fields[2], 65535) {
        Some(v) => v as u16,
        None => return None,
    };
    let byte_offset = match parse_unsigned_chars(&fields[3], 4294967295) {
        Some(v) => v as u32,
        None => return None,
    };
    Some((field_string(&fields, 1), chapter, byte_offset))
}

/// The index entries that the lines describe: blank lines and lines that do not decode are
/// skipped, the others are read after trimming.
pub open spec fn index_from_lines(ls: Seq<Seq<char>>) -> Seq<BookmarkIndexView>
    decreases ls.len(),
{
    if ls.len() == 0 {
        seq![]
    } else {
        let prev = index_from_lines(ls.drop_last());
        let t = trim(ls.last());
        if t.len() == 0 {
            prev
        } else {
            match index_from_fields(split_fields(t)) {
                Some(b) => prev.push(b),
                None => prev,
            }
        }
    }
}

/// The payload of a bookmark index file: one line per entry.
pub open spec fn index_payload(es: Seq<BookmarkIndexView>) -> Seq<char> {
    join(es.map_values(|e: BookmarkIndexView| index_line(e)), '\n')
}

pub fn decode_bookmarks_index(payload: &str) -> (r: Vec<BookmarkIndexRecord>)
    ensures
        r@.map_values(|e: BookmarkIndexRecord| e@) == index_from_lines(lines_of(payload@)),
{
    let lines = split_lines(payload);
    let ghost ls = lines_of(payload@);
    proof {
        lemma_field_views(lines@, ls);
    }
    let mut out: Vec<BookmarkIndexRecord> = Vec::new();
    for i in 0..lines.len()
        invariant
            lines@.len() == ls.len(),
            forall|k: int| 0 <= k < ls.len() ==> #[trigger] lines@[k]@ == ls[k],
            out@.map_values(|e: BookmarkIndexRecord| e@) == index_from_lines(ls.take(i as int)),
    {
        let ghost before = out@.map_values(|e: BookmarkIndexRecord| e@);
        assert(ls.take(i + 1).drop_last() == ls.take(i as int));
        assert(ls.take(i + 1).last() == ls[i as int]);
        let trimmed = trim_chars(&lines[i]);
        if trimmed.len() > 0 {
            let fields = split_fields_of(&trimmed);
            match BookmarkIndexRecord::from_field_list(&fields) {
                Some(e) => {
                    out.push(e);
                    assert(out@.map_values(|e: BookmarkIndexRecord| e@) =~= before.push(e@));
                },
                None => {},
            }
        }
    }
    assert(ls.take(lines.len() as int) == ls);
    out
}

pub fn encode_bookmarks_index(entries: &[BookmarkIndexRecord]) -> (r: String)
    ensures
        r@ == index_payload(entries@.map_values(|e: BookmarkIndexRecord| e@)),
{
    let ghost ls = entries@.map_values(|e: BookmarkIndexRecord| index_line(e@));
    assert(index_payload(entries@.map_values(|e: BookmarkIndexRecord| e@)) == join(ls, '\n'))
        by {
        assert(entries@.map_values(|e: BookmarkIndexRecord| e@).map_values(
            |e: BookmarkIndexView| index_line(e),
        ) =~= ls);
    }
    let mut out = String::new();
    for idx in 0..entries.len()
        invariant
            ls.len() == entries@.len(),
            forall|k: int| 0 <= k < ls.len() ==> #[trigger] ls[k] == index_line(entries@[k]@),
            out@ == join(ls.take(idx as int), '\n'),
    {
        proof {
            lemma_join_take(ls, idx as int, '\n');
        }
        if idx > 0 {
            push_char(&mut out, '\n');
        }
        let line = entries[idx].encode_line();
        push_str(&mut out, line.as_str());
        assert(idx == 0 ==> out@ == ls[0]);
    }
    proof {
        if ls.len() > 0 {
            lemma_join_take(ls, 0, '\n');
        } else {
            assert(ls.take(0) == ls);
        }
    }
    out
}

/// Reading the index back from its payload gives all its entries, in order, when each has a
/// non-empty id that does not begin with whitespace, a label that does not end with
/// whitespace (a newline or carriage return there is escaped, and counts as neither), and none of their texts holds an escape sequence.
pub proof fn lemma_index_list_roundtrip(es: Seq<BookmarkIndexView>)
    requires
        forall|i: int|
            0 <= i < es.len() ==> {
                &&& (#[trigger] es[i]).book_id.len() > 0
                &&& !char_is_whitespace(es[i].book_id[0]) || is_escaped(es[i].book_id[0])
                &&& es[i].label.len() > 0 ==> !char_is_whitespace(es[i].label.last())
                    || is_escaped(es[i].label.last())
                &&& !has_escape_sequence(es[i].book_id)
                &&& !has_escape_sequence(es[i].source_path)
                &&& !has_escape_sequence(es[i].display_title)
                &&& !has_escape_sequence(es[i].label)
            },
    ensures
        index_from_lines(lines_of(index_payload(es))) == es,
{
    let ls = es.map_values(|e: BookmarkIndexView| index_line(e));
    assert forall|i: int| 0 <= i < es.len() implies trim(index_line(#[trigger] es[i]))
        == index_line(es[i]) by {
        let fs = index_fields(es[i]);
        assert(fs.last() == es[i].label);
        lemma_encode_fields_trimmed(fs);
    }
    assert forall|i: int| 0 <= i < ls.len() implies (#[trigger] ls[i]).len() > 0 by {
        lemma_encode_fields_nonempty(index_fields(es[i]));
    }
    assert forall|i: int, k: int| 0 <= i < ls.len() && 0 <= k < ls[i].len() implies #[trigger] ls[i][k]
        != '\n' && ls[i][k] != '\r' by {
        lemma_encode_fields_single_line(index_fields(es[i]));
        assert(ls[i] == encode_fields(index_fields(es[i])));
    }
    lemma_lines_of_join(ls);
    lemma_index_from_encoded_lines(es);
}

proof fn lemma_index_from_encoded_lines(es: Seq<BookmarkIndexView>)
    requires
        forall|i: int|
            0 <= i < es.len() ==> {
                &&& (#[trigger] es[i]).book_id.len() > 0
                &&& !has_escape_sequence(es[i].book_id)
                &&& !has_escape_sequence(es[i].source_path)
                &&& !has_escape_sequence(es[i].display_title)
                &&& !has_escape_sequence(es[i].label)
                &&& trim(index_line(es[i])) == index_line(es[i])
            },
    ensures
        index_from_lines(es.map_values(|e: BookmarkIndexView| index_line(e))) == es,
    decreases es.len(),
{
    let ls = es.map_values(|e: BookmarkIndexView| index_line(e));
    if es.len() > 0 {
        let init = es.drop_last();
        assert forall|i: int| 0 <= i < init.len() implies {
            &&& (#[trigger] init[i]).book_id.len() > 0
            &&& !has_escape_sequence(init[i].book_id)
            &&& !has_escape_sequence(init[i].source_path)
            &&& !has_escape_sequence(init[i].display_title)
            &&& !has_escape_sequence(init[i].label)
            &&& trim(index_line(init[i])) == index_line(init[i])
        } by {
            assert(init[i] == es[i]);
        }
        lemma_index_from_encoded_lines(init);
        assert(ls.drop_last() == init.map_values(|e: BookmarkIndexView| index_line(e)));
        let e = es[es.len() - 1];
        assert(ls.last() == index_line(e));
        lemma_index_roundtrip(e);
        lemma_encode_fields_nonempty(index_fields(e));
        assert(init.push(e) == es);
    }
}

// ---------------------------------------------------------------------------
// Reader theme
// ---------------------------------------------------------------------------

#[derive(Clone, Debug, PartialEq, Eq)]
pub struct ReaderThemePreset {
    pub font_size_idx: u8,
    pub margin_px: u16,
    pub line_spacing_pct: u8,
    pub alignment: String,
    pub theme_name: String,
}

pub struct ReaderThemeView {
    pub font_size_idx: u8,
    pub margin_px: u16,
    pub line_spacing_pct: u8,
    pub alignment: Seq<char>,
    pub theme_name: Seq<char>,
}

impl View for ReaderThemePreset {
    type V = ReaderThemeView;

    open spec fn view(&self) -> ReaderThemeView {
        ReaderThemeView {
            font_size_idx: self.font_size_idx,
            margin_px: self.margin_px,
            line_spacing_pct: self.line_spacing_pct,
            alignment: self.alignment@,
            theme_name: self.theme_name@,
        }
    }
}

impl Default for ReaderThemePreset {
    fn default() -> (r: ReaderThemePreset)
        ensures
            r@ == (ReaderThemeView {
                font_size_idx: 4,
                margin_px: 8,
                line_spacing_pct: 100,
                alignment: "justify"@,
                theme_name: "default"@,
            }),
    {
        ReaderThemePreset {
            font_size_idx: 4,
            margin_px: 8,
            line_spacing_pct: 100,
            alignment: string_from("justify"),
            theme_name: string_from("default"),
        }
    }
}

/// The fields of a theme line, in order.
pub open spec fn theme_fields(r: ReaderThemeView) -> Seq<Seq<char>> {
    seq![
        decimal(r.font_size_idx as nat),
        decimal(r.margin_px as nat),
        decimal(r.line_spacing_pct as nat),
        r.alignment,
        r.theme_name,
    ]
}

/// The theme that five decoded fields describe; the font size index and the line spacing
/// are read as 16-bit numbers and keep their low 8 bits.
pub open spec fn theme_from_fields(f: Seq<Seq<char>>) -> Option<ReaderThemeView> {
    if f.len() != 5 {
        None
    } else {
        match (
            parse_unsigned(f[0], u16::MAX as int),
            parse_unsigned(f[1], u16::MAX as int),
            parse_unsigned(f[2], u16::MAX as int),
        ) {
            (Some(font), Some(margin), Some(spacing)) => Some(
                ReaderThemeView {
                    font_size_idx: (font % 256) as u8,
                    margin_px: margin as u16,
                    line_spacing_pct: (spacing % 256) as u8,
                    alignment: f[3],
                    theme_name: f[4],
                },
            ),
            _ => None,
        }
    }
}

impl ReaderThemePreset {
    pub fn encode_line(&self) -> (r: String)
        ensures
            r@ == encode_fields(theme_fields(self@)),
    {
        let ghost fs = theme_fields(self@);
        let mut line = String::new();
        proof { lemma_encode_fields_take(fs, 0); }
        push_number_field(&mut line, self.font_size_idx as u64);
        proof { lemma_encode_fields_take(fs, 1); }
        push_number_field(&mut line, self.margin_px as u64);
        proof { lemma_encode_fields_take(fs, 2); }
        push_number_field(&mut line, self.line_spacing_pct as u64);
        proof { lemma_encode_fields_take(fs, 3); }
        push_field(&mut line, self.alignment.as_str());
        proof { lemma_encode_fields_take(fs, 4); }
        push_field(&mut line, self.theme_name.as_str());
        line
    }

    pub fn decode_line(line: &str) -> (r: Option<ReaderThemePreset>)
        ensures
            match r {
                Some(x) => theme_from_fields(split_fields(line@)) == Some(x@),
                None => theme_from_fields(split_fields(line@)) is None,
            },
    {
        let fields = split_line_fields(line);
        let ghost fs = split_fields(line@);
        proof {
            lemma_field_views(fields@, fs);
        }
        if fields.len() != 5 {
            return None;
        }
        let font_size_idx = match parse_unsigned_chars(&fields[0], 65535) {
            Some(v) => (v % 256) as u8,
            None => return None,
        };
        let margin_px = match parse_unsigned_chars(&fields[1], 65535) {
            Some(v) => v as u16,
            None => return None,
        };
        let line_spacing_pct = match parse_unsigned_chars(&fields[2], 65535) {
            Some(v) => (v % 256) as u8,
            None => return None,
        };
        Some(
            ReaderThemePreset {
                font_size_idx,
                margin_px,
                line_spacing_pct,
                alignment: field_string(&fields, 3),
                theme_name: field_string(&fields, 4),
            },
        )
    }
}

/// Decoding an encoded theme line gives the theme back, when its alignment and theme name
/// hold no escape sequence.
pub proof fn lemma_theme_roundtrip(r: ReaderThemeView)
    requires
        !has_escape_sequence(r.alignment),
        !has_escape_sequence(r.theme_name),
    ensures
        theme_from_fields(split_fields(encode_fields(theme_fields(r)))) == Some(r),
{
    lemma_plain_number(r.font_size_idx as nat);
    lemma_plain_number(r.margin_px as nat);
    lemma_plain_number(r.line_spacing_pct as nat);
    lemma_split_encode_fields(theme_fields(r));
    crate::text::lemma_parse_decimal(r.font_size_idx as nat, u16::MAX as int);
    crate::text::lemma_parse_decimal(r.margin_px as nat, u16::MAX as int);
    crate::text::lemma_parse_decimal(r.line_spacing_pct as nat, u16::MAX as int);
}

// ---------------------------------------------------------------------------
// Book identity laws
// ---------------------------------------------------------------------------

/// Normalizing a path twice changes nothing more.
pub proof fn lemma_normalized_key_idempotent(path: Seq<char>)
    ensures
        normalized_key(normalized_key(path)) == normalized_key(path),
{
    let n = normalized_key(path);
    assert forall|i: int| 0 <= i < n.len() implies #[trigger] normalized_key(n)[i] == n[i] by {
        let c = path[i];
        let d = if c == '\\' { '/' } else { c };
        assert(n[i] == ascii_lower(d));
    }
    assert(normalized_key(n) =~= n);
}

/// Paths that differ only in the case of ASCII letters and in `\` against `/` name the
/// same book.
pub proof fn lemma_fingerprint_normalized(p: Seq<char>, q: Seq<char>)
    requires
        normalized_key(p) == normalized_key(q),
    ensures
        fingerprint(p) == fingerprint(q),
{
}

/// A book's id is the same whether it is computed from a path or from the path's key.
pub proof fn lemma_fingerprint_of_key(path: Seq<char>)
    ensures
        fingerprint(normalized_key(path)) == fingerprint(path),
{
    lemma_normalized_key_idempotent(path);
}

pub proof fn lemma_hex8_digits(v: u32)
    ensures
        hex8(v).len() == 8,
        forall|i: int| 0 <= i < 8 ==> is_hex_digit(#[trigger] hex8(v)[i]),
{
    assert forall|i: int| 0 <= i < 8 implies is_hex_digit(#[trigger] hex8(v)[i]) by {
        let s = (4 * (7 - i)) as u32;
        assert((v >> s) & 0xfu32 <= 15u32) by (bit_vector);
        assert(nibble(v, 7 - i) <= 15);
    }
}

/// A book id is `bk-` followed by eight lower-case hexadecimal digits.
pub proof fn lemma_fingerprint_shape(path: Seq<char>)
    ensures
        fingerprint(path).len() == 11,
        fingerprint(path).take(3) == seq!['b', 'k', '-'],
        forall|i: int| 3 <= i < 11 ==> is_hex_digit(#[trigger] fingerprint(path)[i]),
{
    let h = hex8(fnv1a(encode_utf8(normalized_key(path))));
    lemma_hex8_digits(fnv1a(encode_utf8(normalized_key(path))));
    assert(fingerprint(path).take(3) =~= seq!['b', 'k', '-']);
    assert forall|i: int| 3 <= i < 11 implies is_hex_digit(#[trigger] fingerprint(path)[i]) by {
        assert(fingerprint(path)[i] == h[i - 3]);
    }
}

proof fn lemma_upper_hex_digits_all(s: Seq<char>)
    requires
        forall|i: int| 0 <= i < s.len() ==> is_hex_digit(#[trigger] s[i]),
    ensures
        upper_hex_digits(s) == s.map_values(|c: char| ascii_upper(c)),
    decreases s.len(),
{
    if s.len() > 0 {
        assert forall|i: int| 0 <= i < s.drop_last().len() implies is_hex_digit(
            #[trigger] s.drop_last()[i],
        ) by {
            assert(s.drop_last()[i] == s[i]);
        }
        lemma_upper_hex_digits_all(s.drop_last());
        assert(is_hex_digit(s[s.len() - 1]));
        assert(s.map_values(|c: char| ascii_upper(c)) =~= s.drop_last().map_values(
            |c: char| ascii_upper(c),
        ).push(ascii_upper(s.last())));
    }
}

/// The bookmark file of a book is its id's eight hexadecimal digits in upper case, then
/// `.BKM`.
pub proof fn lemma_bookmark_file_of_fingerprint(path: Seq<char>)
    ensures
        bookmark_file_of(fingerprint(path)) == hex8(
            fnv1a(encode_utf8(normalized_key(path))),
        ).map_values(|c: char| ascii_upper(c)) + seq!['.', 'B', 'K', 'M'],
{
    let h = hex8(fnv1a(encode_utf8(normalized_key(path))));
    lemma_fingerprint_shape(path);
    lemma_hex8_digits(fnv1a(encode_utf8(normalized_key(path))));
    assert(strip_bk_prefix(fingerprint(path)) =~= h);
    lemma_upper_hex_digits_all(h);
    let u = h.map_values(|c: char| ascii_upper(c));
    assert(u.take(8) =~= u);
}

/// An upper-case hexadecimal digit.
pub open spec fn is_upper_hex_digit(c: char) -> bool {
    ('0' <= c && c <= '9') || ('A' <= c && c <= 'F')
}

proof fn lemma_upper_hex_digits_shape(s: Seq<char>)
    ensures
        forall|i: int|
            0 <= i < upper_hex_digits(s).len() ==> is_upper_hex_digit(
                #[trigger] upper_hex_digits(s)[i],
            ),
    decreases s.len(),
{
    if s.len() > 0 {
        lemma_upper_hex_digits_shape(s.drop_last());
        let p = upper_hex_digits(s.drop_last());
        if is_hex_digit(s.last()) {
            let c = s.last();
            assert(is_upper_hex_digit(ascii_upper(c)));
            assert forall|i: int| 0 <= i < p.len() + 1 implies is_upper_hex_digit(
                #[trigger] p.push(ascii_upper(c))[i],
            ) by {
                if i < p.len() {
                    assert(p.push(ascii_upper(c))[i] == p[i]);
                }
            }
        }
    }
}

/// A bookmark file name is an 8.3 name: eight upper-case hexadecimal digits, then `.BKM`.
pub proof fn lemma_bookmark_file_shape(id: Seq<char>)
    ensures
        bookmark_file_of(id).len() == 12,
        forall|i: int| 0 <= i < 8 ==> is_upper_hex_digit(#[trigger] bookmark_file_of(id)[i]),
        bookmark_file_of(id).skip(8) == seq!['.', 'B', 'K', 'M'],
{
    let h = upper_hex_digits(strip_bk_prefix(id));
    lemma_upper_hex_digits_shape(strip_bk_prefix(id));
    let p = pad8(h);
    assert(p.len() == 8);
    assert forall|i: int| 0 <= i < 8 implies is_upper_hex_digit(#[trigger] bookmark_file_of(id)[i])
        by {
        assert(bookmark_file_of(id)[i] == p[i]);
        if i < h.len() {
            assert(p[i] == h[i]);
        }
    }
    assert(bookmark_file_of(id).skip(8) =~= seq!['.', 'B', 'K', 'M']);
}

// ---------------------------------------------------------------------------
// What paths, ids and labels are made of
// ---------------------------------------------------------------------------

/// Two paths of the same length whose characters agree, or differ only as an ASCII capital
/// letter and its lower-case letter.
pub open spec fn same_up_to_ascii_case(p: Seq<char>, q: Seq<char>) -> bool {
    &&& p.len() == q.len()
    &&& forall|i: int|
        0 <= i < p.len() ==> {
            ||| #[trigger] p[i] == q[i]
            ||| ('A' <= p[i] && p[i] <= 'Z' && q[i] == ((p[i] as u32) + 32) as char)
            ||| ('A' <= q[i] && q[i] <= 'Z' && p[i] == ((q[i] as u32) + 32) as char)
        }
}

/// The key of a path keeps its length; each ASCII capital letter becomes its lower-case
/// letter (32 further on), each `\` becomes `/`, and every other character stays.
pub proof fn lemma_normalized_key_chars(path: Seq<char>)
    ensures
        normalized_key(path).len() == path.len(),
        forall|i: int|
            0 <= i < path.len() ==> #[trigger] normalized_key(path)[i] == (if 'A' <= path[i]
                && path[i] <= 'Z' {
                ((path[i] as u32) + 32) as char
            } else if path[i] == '\\' {
                '/'
            } else {
                path[i]
            }),
{
}

/// Paths that differ only in the case of ASCII letters have the same key and name the same
/// book.
pub proof fn lemma_case_insensitive_key(p: Seq<char>, q: Seq<char>)
    requires
        same_up_to_ascii_case(p, q),
    ensures
        normalized_key(p) == normalized_key(q),
        fingerprint(p) == fingerprint(q),
{
    assert forall|i: int| 0 <= i < p.len() implies #[trigger] normalized_key(p)[i]
        == normalized_key(q)[i] by {
        let a = p[i];
        let b = q[i];
        if a != b {
            if 'A' <= a && a <= 'Z' && b == ((a as u32) + 32) as char {
                assert((((a as u32) + 32) as char) as u32 == (a as u32) + 32);
                assert(!('A' <= b && b <= 'Z'));
            } else {
                assert((((b as u32) + 32) as char) as u32 == (b as u32) + 32);
                assert(!('A' <= a && a <= 'Z'));
            }
        }
    }
    assert(normalized_key(p) =~= normalized_key(q));
}

/// `last_index_of(s, c)` is the largest index that holds `c`, or -1 when none does.
pub proof fn lemma_last_index_of_is_last(s: Seq<char>, c: char)
    ensures
        -1 <= last_index_of(s, c) < s.len(),
        last_index_of(s, c) >= 0 ==> s[last_index_of(s, c)] == c,
        forall|j: int| last_index_of(s, c) < j < s.len() ==> s[j] != c,
    decreases s.len(),
{
    if s.len() > 0 {
        lemma_last_index_of_is_last(s.drop_last(), c);
        assert forall|j: int| last_index_of(s, c) < j < s.len() implies s[j] != c by {
            if s.last() != c && j < s.len() - 1 {
                assert(s[j] == s.drop_last()[j]);
            }
        }
        if s.last() != c && last_index_of(s, c) >= 0 {
            assert(s[last_index_of(s, c)] == s.drop_last()[last_index_of(s, c)]);
        }
    }
}

/// The title of a path whose last `/` is at `k`: all that follows, unless nothing does.
pub proof fn lemma_title_after_last_slash(path: Seq<char>, k: int)
    requires
        0 <= k < path.len(),
        path[k] == '/',
        forall|j: int| k < j < path.len() ==> path[j] != '/',
    ensures
        k + 1 < path.len() ==> title_of(path) == path.skip(k + 1),
        k + 1 == path.len() ==> title_of(path) == path,
{
    lemma_last_index_of_is_last(path, '/');
    let m = last_index_of(path, '/');
    if m < k {
        assert(path[k] != '/');
    }
    if m > k {
        assert(path[m] == '/');
    }
}

/// A path without `/` is its own title.
pub proof fn lemma_title_without_slash(path: Seq<char>)
    requires
        forall|j: int| 0 <= j < path.len() ==> path[j] != '/',
    ensures
        title_of(path) == path,
{
    lemma_last_index_of_is_last(path, '/');
    if last_index_of(path, '/') >= 0 {
        assert(path[last_index_of(path, '/')] == '/');
    }
}

pub open spec fn ends_with(s: Seq<char>, t: Seq<char>) -> bool {
    s.len() >= t.len() && s.skip(s.len() - t.len()) == t
}

pub open spec fn starts_with(s: Seq<char>, t: Seq<char>) -> bool {
    s.len() >= t.len() && s.take(t.len() as int) == t
}

/// `t` is `Ch `, a chapter number, ` @ ` (starting at `k`) and an offset, where the numbers
/// read back as `chapter + 1` (chapters counted from 1) and `offset`.
pub open spec fn bookmark_position_at(t: Seq<char>, k: int, chapter: u16, offset: u32) -> bool {
    &&& 0 <= k && k + 3 <= t.len()
    &&& starts_with(t, "Ch "@)
    &&& parse_unsigned(t.subrange("Ch "@.len() as int, k), u32::MAX as int) == Some(
        chapter + 1,
    )
    &&& t.subrange(k, k + 3) == " @ "@
    &&& parse_unsigned(t.skip(k + 3), u32::MAX as int) == Some(offset as int)
}

/// `t` ends with ` · Ch ` (starting at `k`), a chapter number, ` · Off ` (starting at `m`)
/// and an offset, where the numbers read back as `chapter + 1` (chapters counted from 1) and
/// `offset`.
pub open spec fn index_position_at(t: Seq<char>, k: int, m: int, chapter: u16, offset: u32) -> bool {
    &&& 0 <= k && k + " · Ch "@.len() <= m && m + " · Off "@.len() <= t.len()
    &&& t.subrange(k, k + " · Ch "@.len()) == " · Ch "@
    &&& parse_unsigned(t.subrange(k + " · Ch "@.len(), m), u32::MAX as int) == Some(
        chapter + 1,
    )
    &&& t.subrange(m, m + " · Off "@.len()) == " · Off "@
    &&& parse_unsigned(t.skip(m + " · Off "@.len()), u32::MAX as int) == Some(offset as int)
}

/// A bookmark with a label is shown by its trimmed label; one without is shown as `Ch `,
/// its chapter counted from 1, ` @ `, and its offset, each number read back whole.
pub proof fn lemma_bookmark_label_parts(r: BookmarkView)
    ensures
        trim(r.label).len() > 0 ==> bookmark_label(r) == trim(r.label),
        trim(r.label).len() == 0 ==> exists|k: int|
            bookmark_position_at(bookmark_label(r), k, r.chapter, r.byte_offset),
{
    if trim(r.label).len() == 0 {
        let t = bookmark_label(r);
        let a = "Ch "@;
        let c = decimal(r.chapter as nat + 1);
        let at = " @ "@;
        let o = decimal(r.byte_offset as nat);
        reveal_strlit(" @ ");
        let k = (a.len() + c.len()) as int;
        assert(t == a + c + at + o);
        assert(t.take(a.len() as int) == a);
        assert(t.subrange(a.len() as int, k) == c);
        assert(t.subrange(k, k + 3) == at);
        assert(t.skip(k + 3) == o);
        crate::text::lemma_parse_decimal(r.chapter as nat + 1, u32::MAX as int);
        crate::text::lemma_parse_decimal(r.byte_offset as nat, u32::MAX as int);
        assert(bookmark_position_at(t, k, r.chapter, r.byte_offset));
    }
}

/// An index entry is shown as its title, then ` · ` and its trimmed label, when it has one,
/// whatever its title; else ` · Ch `, its chapter counted from 1, ` · Off ` and its offset,
/// each number read back whole. The title is its trimmed title, or the last component of its
/// path when the trimmed title is empty.
pub proof fn lemma_index_label_parts(r: BookmarkIndexView)
    ensures
        trim(r.display_title).len() > 0 ==> starts_with(index_label(r), trim(r.display_title)),
        trim(r.display_title).len() == 0 ==> starts_with(index_label(r), title_of(r.source_path)),
        trim(r.label).len() > 0 ==> ends_with(index_label(r), " · "@ + trim(r.label)),
        trim(r.label).len() == 0 ==> exists|k: int, m: int|
            index_position_at(index_label(r), k, m, r.chapter, r.byte_offset),
{
    let t = index_label(r);
    let title = trim(r.display_title);
    let detail = trim(r.label);
    let head = if title.len() > 0 {
        title
    } else {
        title_of(r.source_path)
    };
    if detail.len() > 0 {
        let tail = " · "@ + detail;
        assert(t == head + tail);
        assert(t.skip(t.len() - tail.len()) == tail);
        assert(t.take(head.len() as int) == head);
    } else {
        let ch = " · Ch "@;
        let c = decimal(r.chapter as nat + 1);
        let off = " · Off "@;
        let o = decimal(r.byte_offset as nat);
        assert(t == head + ch + c + off + o);
        assert(t.take(head.len() as int) == head);
        let k = head.len() as int;
        let m = k + ch.len() + c.len();
        assert(t.subrange(k, k + ch.len()) == ch);
        assert(t.subrange(k + ch.len(), m) == c);
        assert(t.subrange(m, m + off.len()) == off);
        assert(t.skip(m + off.len()) == o);
        crate::text::lemma_parse_decimal(r.chapter as nat + 1, u32::MAX as int);
        crate::text::lemma_parse_decimal(r.byte_offset as nat, u32::MAX as int);
        assert(index_position_at(t, k, m, r.chapter, r.byte_offset));
    }
}

} // verus!
