//! The game's mod-list file: an XML document whose root `Mods` holds one
//! `Mod` element per entry, each with the attributes `enabled`, `name`,
//! `settings_fold_open` and `workshop_item_id`. The library writes them in
//! that order; it reads them in any order, once each, and skips others.

use vstd::prelude::*;

use crate::error::NoitadError;
use crate::mod_config::{views_of, Mod, ModView, Mods};

verus! {

// ----- attribute-value escaping -----

pub open spec fn escape_char(c: char) -> Seq<char> {
    if c == '<' {
        seq!['&', 'l', 't', ';']
    } else if c == '>' {
        seq!['&', 'g', 't', ';']
    } else if c == '&' {
        seq!['&', 'a', 'm', 'p', ';']
    } else if c == '\'' {
        seq!['&', 'a', 'p', 'o', 's', ';']
    } else if c == '"' {
        seq!['&', 'q', 'u', 'o', 't', ';']
    } else {
        seq![c]
    }
}

/// `s` with each of `< > & ' "` replaced by its predefined entity.
pub open spec fn xml_escaped(s: Seq<char>) -> Seq<char>
    decreases s.len(),
{
    if s.len() == 0 {
        Seq::empty()
    } else {
        escape_char(s[0]) + xml_escaped(s.drop_first())
    }
}

/// The character that a predefined entity at the start of `s` stands for,
/// with the entity's length.
pub open spec fn entity_at(s: Seq<char>) -> Option<(char, int)> {
    if s.len() >= 4 && s.subrange(0, 4) == seq!['&', 'l', 't', ';'] {
        Some(('<', 4))
    } else if s.len() >= 4 && s.subrange(0, 4) == seq!['&', 'g', 't', ';'] {
        Some(('>', 4))
    } else if s.len() >= 5 && s.subrange(0, 5) == seq!['&', 'a', 'm', 'p', ';'] {
        Some(('&', 5))
    } else if s.len() >= 6 && s.subrange(0, 6) == seq!['&', 'a', 'p', 'o', 's', ';'] {
        Some(('\'', 6))
    } else if s.len() >= 6 && s.subrange(0, 6) == seq!['&', 'q', 'u', 'o', 't', ';'] {
        Some(('"', 6))
    } else {
        None
    }
}

/// `s` with its predefined entities replaced by their characters; `None`
/// where an `&` starts anything else.
pub open spec fn named_refs_decoded(s: Seq<char>) -> Option<Seq<char>>
    decreases s.len(),
{
    if s.len() == 0 {
        Some(Seq::empty())
    } else if s[0] != '&' {
        match named_refs_decoded(s.drop_first()) {
            Some(r) => Some(seq![s[0]] + r),
            None => None,
        }
    } else {
        match entity_at(s) {
            Some((c, n)) => if 0 < n <= s.len() {
                match named_refs_decoded(s.subrange(n, s.len() as int)) {
                    Some(r) => Some(seq![c] + r),
                    None => None,
                }
            } else {
                None
            },
            None => None,
        }
    }
}

/// What quick_xml's `unescape` makes of an attribute value (`None`: an error).
pub uninterp spec fn unescaped_of(s: Seq<char>) -> Option<Seq<char>>;

/// The text that a raw attribute value stands for.
pub open spec fn attr_text(raw: Seq<char>) -> Option<Seq<char>> {
    if named_refs_decoded(raw) is Some {
        named_refs_decoded(raw)
    } else {
        unescaped_of(raw)
    }
}

/// Relies on quick_xml::escape::escape, which replaces each of `< > & ' "`
/// by `&lt; &gt; &amp; &apos; &quot;` and keeps every other character.
#[verifier::external_body]
fn escape_value(s: &str) -> (r: String)
    ensures
        r@ == xml_escaped(s@),
{
    quick_xml::escape::escape(s).into_owned()
}

/// Relies on quick_xml::escape::unescape, which replaces the predefined
/// entities `&lt; &gt; &amp; &apos; &quot;` by their characters and keeps
/// every character outside an entity.
#[verifier::external_body]
fn unescape_value(raw: &str) -> (r: Option<String>)
    ensures
        r is Some <==> unescaped_of(raw@) is Some,
        r matches Some(t) ==> unescaped_of(raw@) == Some(t@),
        named_refs_decoded(raw@) is Some ==> r is Some && named_refs_decoded(raw@) == Some(
            r->Some_0@,
        ),
{
    quick_xml::escape::unescape(raw).ok().map(|t| t.into_owned())
}

/// Relies on String::push, which appends one character.
#[verifier::external_body]
pub(crate) fn push_char(s: &mut String, c: char)
    ensures
        final(s)@ == old(s)@.push(c),
{
    s.push(c)
}

// ----- attribute values -----

pub open spec fn bool_text(b: bool) -> Seq<char> {
    if b {
        seq!['1']
    } else {
        seq!['0']
    }
}

/// `1` and `true` read as true, `0` and `false` as false.
pub open spec fn bool_of(v: Seq<char>) -> Option<bool> {
    if v == seq!['1'] || v == seq!['t', 'r', 'u', 'e'] {
        Some(true)
    } else if v == seq!['0'] || v == seq!['f', 'a', 'l', 's', 'e'] {
        Some(false)
    } else {
        None
    }
}

pub open spec fn is_digit(c: char) -> bool {
    '0' <= c && c <= '9'
}

pub open spec fn digit_value(c: char) -> nat {
    (c as u32 - 48) as nat
}

pub open spec fn digit_char(d: nat) -> char {
    ((d + 48) as u8) as char
}

/// The number that a string of decimal digits stands for.
pub open spec fn digits_value(v: Seq<char>) -> nat
    decreases v.len(),
{
    if v.len() == 0 {
        0
    } else {
        digits_value(v.drop_last()) * 10 + digit_value(v.last())
    }
}

/// The decimal digits of `n`, with no leading zero.
pub open spec fn decimal(n: nat) -> Seq<char>
    decreases n,
{
    if n < 10 {
        seq![digit_char(n)]
    } else {
        decimal(n / 10).push(digit_char(n % 10))
    }
}

/// A workshop id: one or more decimal digits whose value fits in `usize`.
pub open spec fn id_of(v: Seq<char>) -> Option<usize> {
    if v.len() > 0 && (forall|k: int| 0 <= k < v.len() ==> is_digit(#[trigger] v[k]))
        && digits_value(v) <= usize::MAX {
        Some(digits_value(v) as usize)
    } else {
        None
    }
}

// ----- the grammar -----

pub open spec fn is_ws(c: char) -> bool {
    c == ' ' || c == '\t' || c == '\n' || c == '\r'
}

/// The first position at or after `i` that holds no whitespace.
pub open spec fn skip_ws(s: Seq<char>, i: int) -> int
    decreases s.len() - i,
{
    if 0 <= i < s.len() && is_ws(s[i]) {
        skip_ws(s, i + 1)
    } else {
        i
    }
}

pub open spec fn has_at(s: Seq<char>, i: int, lit: Seq<char>) -> bool {
    0 <= i && i + lit.len() <= s.len() && s.subrange(i, i + lit.len()) == lit
}

/// The first position at or after `i` that holds `c`, or the end.
pub open spec fn find_char(s: Seq<char>, i: int, c: char) -> int
    decreases s.len() - i,
{
    if 0 <= i < s.len() && s[i] != c {
        find_char(s, i + 1, c)
    } else {
        i
    }
}

/// A character that may stand in an attribute name.
pub open spec fn is_name_char(c: char) -> bool {
    ('a' <= c && c <= 'z') || ('A' <= c && c <= 'Z') || ('0' <= c && c <= '9') || c == '_' || c
        == '-' || c == ':' || c == '.'
}

/// The first position at or after `i` that holds no name character.
pub open spec fn name_end(s: Seq<char>, i: int) -> int
    decreases s.len() - i,
{
    if 0 <= i < s.len() && is_name_char(s[i]) {
        name_end(s, i + 1)
    } else {
        i
    }
}

/// The first position at or after `i` where `?>` starts, or the last one.
pub open spec fn find_pi_end(s: Seq<char>, i: int) -> int
    decreases s.len() - i,
{
    if 0 <= i && i + 1 < s.len() && !(s[i] == '?' && s[i + 1] == '>') {
        find_pi_end(s, i + 1)
    } else {
        i
    }
}

pub open spec fn key_enabled() -> Seq<char> {
    seq!['e', 'n', 'a', 'b', 'l', 'e', 'd']
}

pub open spec fn key_name() -> Seq<char> {
    seq!['n', 'a', 'm', 'e']
}

pub open spec fn key_fold() -> Seq<char> {
    seq!['s', 'e', 't', 't', 'i', 'n', 'g', 's', '_', 'f', 'o', 'l', 'd', '_', 'o', 'p', 'e', 'n']
}

pub open spec fn key_id() -> Seq<char> {
    seq!['w', 'o', 'r', 'k', 's', 'h', 'o', 'p', '_', 'i', 't', 'e', 'm', '_', 'i', 'd']
}

pub open spec fn open_mod() -> Seq<char> {
    seq!['<', 'M', 'o', 'd']
}

pub open spec fn close_mod_tag() -> Seq<char> {
    seq!['<', '/', 'M', 'o', 'd']
}

pub open spec fn open_mods() -> Seq<char> {
    seq!['<', 'M', 'o', 'd', 's']
}

pub open spec fn close_mods_tag() -> Seq<char> {
    seq!['<', '/', 'M', 'o', 'd', 's']
}

/// Whitespace, a name, `=`, and a value in double or single quotes,
/// starting at `p`: the name, the raw value, and the position after the
/// closing quote.
pub open spec fn parse_attr(s: Seq<char>, p: int) -> Option<(Seq<char>, Seq<char>, int)> {
    let i = skip_ws(s, p);
    let j = name_end(s, i);
    let k = skip_ws(s, j);
    let m = skip_ws(s, k + 1);
    let e = find_char(s, m + 1, s[m]);
    if p < i && i < j && k < s.len() && s[k] == '=' && m < s.len() && (s[m] == '"' || s[m] == '\'')
        && e < s.len() {
        Some((s.subrange(i, j), s.subrange(m + 1, e), e + 1))
    } else {
        None
    }
}

/// The attributes of a `Mod` element read so far.
pub struct ModFields {
    pub enabled: Option<bool>,
    pub name: Option<Seq<char>>,
    pub settings_fold_open: Option<bool>,
    pub workshop_item_id: Option<usize>,
}

pub open spec fn no_fields() -> ModFields {
    ModFields { enabled: None, name: None, settings_fold_open: None, workshop_item_id: None }
}

/// `f` with attribute `key` read from `raw`: `None` where the attribute is
/// one of the four and was read before, or its value is malformed; other
/// attributes are skipped.
pub open spec fn with_attr(f: ModFields, key: Seq<char>, raw: Seq<char>) -> Option<ModFields> {
    if key == key_enabled() {
        if f.enabled is Some || bool_of(raw) is None {
            None
        } else {
            Some(ModFields { enabled: bool_of(raw), ..f })
        }
    } else if key == key_name() {
        if f.name is Some || attr_text(raw) is None {
            None
        } else {
            Some(ModFields { name: attr_text(raw), ..f })
        }
    } else if key == key_fold() {
        if f.settings_fold_open is Some || bool_of(raw) is None {
            None
        } else {
            Some(ModFields { settings_fold_open: bool_of(raw), ..f })
        }
    } else if key == key_id() {
        if f.workshop_item_id is Some || id_of(raw) is None {
            None
        } else {
            Some(ModFields { workshop_item_id: id_of(raw), ..f })
        }
    } else {
        Some(f)
    }
}

/// Attributes from `p` up to the `/` or `>` that ends them: the fields read
/// and the position of that character.
pub open spec fn parse_attrs(s: Seq<char>, p: int, f: ModFields) -> Option<(ModFields, int)>
    decreases s.len() - p,
{
    let i = skip_ws(s, p);
    if 0 <= i < s.len() && (s[i] == '/' || s[i] == '>') {
        Some((f, i))
    } else {
        match parse_attr(s, p) {
            None => None,
            Some((key, raw, e)) => if p < e <= s.len() {
                match with_attr(f, key, raw) {
                    None => None,
                    Some(g) => parse_attrs(s, e, g),
                }
            } else {
                None
            },
        }
    }
}

/// The end of a `Mod` element after its attributes: `/>`, or `>` and the
/// closing tag, with whitespace between.
pub open spec fn close_mod(s: Seq<char>, p: int) -> Option<int> {
    let j = skip_ws(s, p);
    let r = skip_ws(s, j + 1);
    let t = skip_ws(s, r + 5);
    if has_at(s, j, seq!['/', '>']) {
        Some(j + 2)
    } else if 0 <= j < s.len() && s[j] == '>' && has_at(s, r, close_mod_tag()) && t < s.len()
        && s[t] == '>' {
        Some(t + 1)
    } else {
        None
    }
}

/// One `Mod` element after optional whitespace: the entry and the position
/// after the element. Each of the four attributes must appear once, in any
/// order.
pub open spec fn parse_mod(s: Seq<char>, p: int) -> Option<(ModView, int)> {
    let i = skip_ws(s, p);
    if !has_at(s, i, open_mod()) {
        None
    } else {
        match parse_attrs(s, i + 4, no_fields()) {
            None => None,
            Some((f, q)) => match close_mod(s, q) {
                None => None,
                Some(e) => if f.enabled is Some && f.name is Some && f.settings_fold_open is Some
                    && f.workshop_item_id is Some {
                    Some(
                        (
                            ModView {
                                enabled: f.enabled->Some_0,
                                name: f.name->Some_0,
                                settings_fold_open: f.settings_fold_open->Some_0,
                                workshop_item_id: f.workshop_item_id->Some_0,
                            },
                            e,
                        ),
                    )
                } else {
                    None
                },
            },
        }
    }
}

/// `Mod` elements from `p` up to the closing tag that starts with `</`:
/// the entries and the position of that tag.
pub open spec fn parse_mods(s: Seq<char>, p: int) -> Option<(Seq<ModView>, int)>
    decreases s.len() - p,
{
    let i = skip_ws(s, p);
    if has_at(s, i, seq!['<', '/']) {
        Some((Seq::empty(), i))
    } else {
        match parse_mod(s, i) {
            None => None,
            Some((m, e)) => if p < e <= s.len() {
                match parse_mods(s, e) {
                    None => None,
                    Some((rest, q)) => Some((seq![m] + rest, q)),
                }
            } else {
                None
            },
        }
    }
}

/// The position after an optional `<?...?>` declaration at `i` and the
/// whitespace after it; `-1` for an unterminated one.
pub open spec fn skip_prolog(s: Seq<char>, i: int) -> int {
    if has_at(s, i, seq!['<', '?']) {
        let e = find_pi_end(s, i + 2);
        if e + 1 < s.len() {
            skip_ws(s, e + 2)
        } else {
            -1
        }
    } else {
        i
    }
}

/// The mod list that a whole document holds, or `None` where it is malformed.
pub open spec fn parse_doc(s: Seq<char>) -> Option<Seq<ModView>> {
    let i = skip_prolog(s, skip_ws(s, 0));
    let j = skip_ws(s, i + 5);
    if !has_at(s, i, open_mods()) {
        None
    } else if has_at(s, j, seq!['/', '>']) {
        if skip_ws(s, j + 2) == s.len() {
            Some(Seq::empty())
        } else {
            None
        }
    } else if 0 <= j < s.len() && s[j] == '>' {
        match parse_mods(s, j + 1) {
            None => None,
            Some((l, k)) => {
                let m = skip_ws(s, k + 6);
                if has_at(s, k, close_mods_tag()) && m < s.len() && s[m] == '>' && skip_ws(s, m + 1)
                    == s.len() {
                    Some(l)
                } else {
                    None
                }
            },
        }
    } else {
        None
    }
}

// ----- the encoding -----

/// ` key="value"`
pub open spec fn encoded_attr(key: Seq<char>, value: Seq<char>) -> Seq<char> {
    seq![' '] + key + seq!['=', '"'] + value + seq!['"']
}

pub open spec fn encoded_mod(m: ModView) -> Seq<char> {
    open_mod() + encoded_attr(key_enabled(), bool_text(m.enabled)) + encoded_attr(
        key_name(),
        xml_escaped(m.name),
    ) + encoded_attr(key_fold(), bool_text(m.settings_fold_open)) + encoded_attr(
        key_id(),
        decimal(m.workshop_item_id as nat),
    ) + seq!['/', '>']
}

pub open spec fn encoded_mods(l: Seq<ModView>) -> Seq<char>
    decreases l.len(),
{
    if l.len() == 0 {
        Seq::empty()
    } else {
        encoded_mod(l[0]) + encoded_mods(l.drop_first())
    }
}

/// The document that the library writes for a mod list.
pub open spec fn encoded_doc(l: Seq<ModView>) -> Seq<char> {
    seq!['<', 'M', 'o', 'd', 's', '>'] + encoded_mods(l) + seq!['<', '/', 'M', 'o', 'd', 's', '>']
}

proof fn lemma_escape_concat(a: Seq<char>, b: Seq<char>)
    ensures
        xml_escaped(a + b) == xml_escaped(a) + xml_escaped(b),
    decreases a.len(),
{
    if a.len() == 0 {
        assert(a + b =~= b);
    } else {
        assert((a + b).drop_first() =~= a.drop_first() + b);
        lemma_escape_concat(a.drop_first(), b);
    }
}

proof fn lemma_decode_escaped(t: Seq<char>)
    ensures
        named_refs_decoded(xml_escaped(t)) == Some(t),
    decreases t.len(),
{
    if t.len() > 0 {
        let c = t[0];
        let rest = t.drop_first();
        let e = escape_char(c);
        let x = xml_escaped(rest);
        let s = e + x;
        lemma_decode_escaped(rest);
        assert(xml_escaped(t) == s);
        if c == '<' || c == '>' || c == '&' || c == '\'' || c == '"' {
            assert(s[0] == '&');
            assert(s.subrange(e.len() as int, s.len() as int) =~= x);
            assert(s.subrange(0, e.len() as int) =~= e);
            if c == '<' {
                assert(entity_at(s) == Some(('<', 4int)));
            } else if c == '>' {
                assert(entity_at(s).unwrap() == ('>', 4int));
            } else if c == '&' {
                assert(entity_at(s).unwrap() == ('&', 5int));
            } else if c == '\'' {
                assert(entity_at(s).unwrap() == ('\'', 6int));
            } else {
                assert(entity_at(s).unwrap() == ('"', 6int));
            }
            assert(seq![c] + rest =~= t);
        } else {
            assert(s.drop_first() =~= x);
            assert(seq![c] + rest =~= t);
        }
    }
}

/// An escaped value holds no double quote.
proof fn lemma_escaped_no_quote(t: Seq<char>)
    ensures
        forall|k: int| 0 <= k < xml_escaped(t).len() ==> xml_escaped(t)[k] != '"',
    decreases t.len(),
{
    if t.len() > 0 {
        lemma_escaped_no_quote(t.drop_first());
        let e = escape_char(t[0]);
        let x = xml_escaped(t.drop_first());
        assert forall|k: int| 0 <= k < (e + x).len() implies (e + x)[k] != '"' by {
            if k >= e.len() {
                assert((e + x)[k] == x[k - e.len()]);
            }
        }
    }
}

proof fn lemma_sub_of(s: Seq<char>, p: int, e: Seq<char>, off: int, a: Seq<char>)
    requires
        0 <= p,
        p + e.len() <= s.len(),
        s.subrange(p, p + e.len()) == e,
        0 <= off,
        off + a.len() <= e.len(),
        e.subrange(off, off + a.len()) == a,
    ensures
        s.subrange(p + off, p + off + a.len()) == a,
        forall|k: int| 0 <= k < a.len() ==> s[p + off + k] == a[k],
{
    assert forall|k: int| 0 <= k < a.len() implies s[p + off + k] == a[k] by {
        assert(s.subrange(p, p + e.len())[off + k] == s[p + off + k]);
        assert(e.subrange(off, off + a.len())[k] == e[off + k]);
    }
    assert(s.subrange(p + off, p + off + a.len()) =~= a);
}

proof fn lemma_find_char(s: Seq<char>, i: int, j: int, c: char)
    requires
        0 <= i <= j < s.len(),
        s[j] == c,
        forall|k: int| i <= k < j ==> s[k] != c,
    ensures
        find_char(s, i, c) == j,
    decreases j - i,
{
    if i < j {
        lemma_find_char(s, i + 1, j, c);
    }
}

proof fn lemma_name_end(s: Seq<char>, i: int, j: int)
    requires
        0 <= i <= j < s.len(),
        !is_name_char(s[j]),
        forall|k: int| i <= k < j ==> is_name_char(s[k]),
    ensures
        name_end(s, i) == j,
    decreases j - i,
{
    if i < j {
        lemma_name_end(s, i + 1, j);
    }
}

proof fn lemma_attr_chars(key: Seq<char>, v: Seq<char>)
    ensures
        ({
            let a = encoded_attr(key, v);
            let kl = key.len() as int;
            let vl = v.len() as int;
            &&& a.len() == kl + vl + 4
            &&& a[0] == ' '
            &&& forall|k: int| 0 <= k < kl ==> a[1 + k] == key[k]
            &&& a[1 + kl] == '='
            &&& a[2 + kl] == '"'
            &&& forall|k: int| 0 <= k < vl ==> a[3 + kl + k] == v[k]
            &&& a[3 + kl + vl] == '"'
        }),
{
    let a1 = seq![' '] + key;
    let a2 = a1 + seq!['=', '"'];
    let a3 = a2 + v;
    let a = a3 + seq!['"'];
    let kl = key.len() as int;
    let vl = v.len() as int;
    assert(a == encoded_attr(key, v));
    assert(a[0] == a3[0] && a3[0] == a2[0] && a2[0] == a1[0]);
    assert forall|k: int| 0 <= k < kl implies a[1 + k] == key[k] by {
        assert(a[1 + k] == a3[1 + k] && a3[1 + k] == a2[1 + k] && a2[1 + k] == a1[1 + k]);
    }
    assert(a[1 + kl] == a3[1 + kl] && a3[1 + kl] == a2[1 + kl]);
    assert(a[2 + kl] == a3[2 + kl] && a3[2 + kl] == a2[2 + kl]);
    assert forall|k: int| 0 <= k < vl implies a[3 + kl + k] == v[k] by {
        assert(a[3 + kl + k] == a3[3 + kl + k]);
    }
}

proof fn lemma_attr(s: Seq<char>, p: int, key: Seq<char>, v: Seq<char>)
    requires
        key.len() > 0,
        forall|k: int| 0 <= k < key.len() ==> is_name_char(#[trigger] key[k]),
        forall|k: int| 0 <= k < v.len() ==> v[k] != '"',
        0 <= p,
        p + encoded_attr(key, v).len() <= s.len(),
        s.subrange(p, p + encoded_attr(key, v).len()) == encoded_attr(key, v),
    ensures
        parse_attr(s, p) == Some((key, v, p + encoded_attr(key, v).len())),
        skip_ws(s, p) == p + 1,
        s[p + 1] == key[0],
{
    let a = encoded_attr(key, v);
    let kl = key.len() as int;
    let vl = v.len() as int;
    assert(a.len() == kl + vl + 4);
    assert forall|k: int| 0 <= k < a.len() implies s[p + k] == a[k] by {
        assert(s.subrange(p, p + a.len())[k] == s[p + k]);
    }
    lemma_attr_chars(key, v);
    assert(s[p] == ' ');
    assert(s[p + 1] == key[0]);
    assert(is_name_char(key[0]));
    assert(skip_ws(s, p + 1) == p + 1);
    assert(skip_ws(s, p) == p + 1);
    assert(s.subrange(p + 1, p + 1 + kl) =~= key) by {
        assert forall|k: int| 0 <= k < kl implies s.subrange(p + 1, p + 1 + kl)[k] == key[k] by {
            assert(s[p + 1 + k] == a[1 + k]);
        }
    }
    assert(s[p + 1 + kl] == '=');
    assert forall|k: int| p + 1 <= k < p + 1 + kl implies is_name_char(s[k]) by {
        assert(s[k] == a[k - p]);
        assert(a[k - p] == key[k - p - 1]);
    }
    lemma_name_end(s, p + 1, p + 1 + kl);
    assert(skip_ws(s, p + 1 + kl) == p + 1 + kl);
    assert(s[p + 2 + kl] == '"');
    assert(skip_ws(s, p + 2 + kl) == p + 2 + kl);
    assert(s[p + 3 + kl + vl] == '"');
    assert forall|k: int| p + 3 + kl <= k < p + 3 + kl + vl implies s[k] != '"' by {
        assert(s[k] == a[k - p]);
        assert(a[k - p] == v[k - p - 3 - kl]);
    }
    lemma_find_char(s, p + 3 + kl, p + 3 + kl + vl, '"');
    assert(s.subrange(p + 3 + kl, p + 3 + kl + vl) =~= v) by {
        assert forall|k: int| 0 <= k < vl implies s.subrange(p + 3 + kl, p + 3 + kl + vl)[k]
            == v[k] by {
            assert(s[p + 3 + kl + k] == a[3 + kl + k]);
        }
    }
}

proof fn lemma_digit(d: nat)
    requires
        d < 10,
    ensures
        is_digit(digit_char(d)),
        digit_value(digit_char(d)) == d,
{
}

proof fn lemma_decimal(n: nat)
    ensures
        decimal(n).len() > 0,
        forall|k: int| 0 <= k < decimal(n).len() ==> is_digit(#[trigger] decimal(n)[k]),
        digits_value(decimal(n)) == n,
    decreases n,
{
    if n < 10 {
        lemma_digit(n);
        let d = decimal(n);
        assert(d.drop_last() =~= Seq::<char>::empty());
        assert(digits_value(d.drop_last()) == 0);
        assert(digits_value(d) == digits_value(d.drop_last()) * 10 + digit_value(d.last()));
    } else {
        lemma_decimal(n / 10);
        lemma_digit(n % 10);
        let d = decimal(n);
        assert(d.drop_last() =~= decimal(n / 10));
        assert(n == (n / 10) * 10 + n % 10) by (nonlinear_arith);
        assert(d.last() == digit_char(n % 10));
        assert(digits_value(d) == digits_value(d.drop_last()) * 10 + digit_value(d.last()));
        assert(digits_value(d.drop_last()) == n / 10);
        assert forall|k: int| 0 <= k < d.len() implies is_digit(#[trigger] d[k]) by {
            if k < d.len() - 1 {
                assert(d[k] == decimal(n / 10)[k]);
            }
        }
    }
}

proof fn lemma_bool(b: bool)
    ensures
        bool_of(bool_text(b)) == Some(b),
        forall|k: int| 0 <= k < bool_text(b).len() ==> bool_text(b)[k] != '"',
{
    if b {
        assert(bool_text(b) =~= seq!['1']);
        assert(bool_text(b)[0] != seq!['0'][0]);
    } else {
        assert(bool_text(b) =~= seq!['0']);
        assert(bool_text(b)[0] != seq!['1'][0]);
        assert(bool_text(b).len() != seq!['t', 'r', 'u', 'e'].len());
    }
}

proof fn lemma_no_quote_simple(v: Seq<char>)
    requires
        forall|k: int| 0 <= k < v.len() ==> is_digit(#[trigger] v[k]),
    ensures
        forall|k: int| 0 <= k < v.len() ==> v[k] != '"',
{
    assert forall|k: int| 0 <= k < v.len() implies v[k] != '"' by {
        assert(is_digit(v[k]));
    }
}

proof fn lemma_mod(s: Seq<char>, p: int, m: ModView)
    requires
        0 <= p,
        p + encoded_mod(m).len() <= s.len(),
        s.subrange(p, p + encoded_mod(m).len()) == encoded_mod(m),
    ensures
        parse_mod(s, p) == Some((m, p + encoded_mod(m).len())),
{
    let v1 = bool_text(m.enabled);
    let v2 = xml_escaped(m.name);
    let v3 = bool_text(m.settings_fold_open);
    let v4 = decimal(m.workshop_item_id as nat);
    let a1 = encoded_attr(key_enabled(), v1);
    let a2 = encoded_attr(key_name(), v2);
    let a3 = encoded_attr(key_fold(), v3);
    let a4 = encoded_attr(key_id(), v4);
    let e1 = open_mod();
    let e2 = e1 + a1;
    let e3 = e2 + a2;
    let e4 = e3 + a3;
    let e5 = e4 + a4;
    let e = e5 + seq!['/', '>'];
    assert(e == encoded_mod(m));
    assert(e.subrange(0, e1.len() as int) =~= e1);
    lemma_sub_of(s, p, e, 0, e1);
    assert(e.subrange(e1.len() as int, e2.len() as int) =~= a1);
    lemma_sub_of(s, p, e, e1.len() as int, a1);
    assert(e.subrange(e2.len() as int, e3.len() as int) =~= a2);
    lemma_sub_of(s, p, e, e2.len() as int, a2);
    assert(e.subrange(e3.len() as int, e4.len() as int) =~= a3);
    lemma_sub_of(s, p, e, e3.len() as int, a3);
    assert(e.subrange(e4.len() as int, e5.len() as int) =~= a4);
    lemma_sub_of(s, p, e, e4.len() as int, a4);
    assert(e.subrange(e5.len() as int, e.len() as int) =~= seq!['/', '>']);
    lemma_sub_of(s, p, e, e5.len() as int, seq!['/', '>']);
    assert(skip_ws(s, p) == p);
    assert(has_at(s, p, open_mod()));
    lemma_decimal(m.workshop_item_id as nat);
    lemma_escaped_no_quote(m.name);
    lemma_no_quote_simple(v4);
    lemma_keys();
    lemma_attr(s, p + e1.len(), key_enabled(), v1);
    lemma_attr(s, p + e2.len(), key_name(), v2);
    lemma_attr(s, p + e3.len(), key_fold(), v3);
    lemma_attr(s, p + e4.len(), key_id(), v4);
    assert(skip_ws(s, p + e5.len()) == p + e5.len());
    assert(close_mod(s, p + e5.len()) == Some(p + e.len()));
    lemma_decode_escaped(m.name);
    lemma_bool(m.enabled);
    lemma_bool(m.settings_fold_open);
    assert(id_of(v4) == Some(m.workshop_item_id));
    let f0 = no_fields();
    let f1 = ModFields { enabled: Some(m.enabled), ..f0 };
    let f2 = ModFields { name: Some(m.name), ..f1 };
    let f3 = ModFields { settings_fold_open: Some(m.settings_fold_open), ..f2 };
    let f4 = ModFields { workshop_item_id: Some(m.workshop_item_id), ..f3 };
    assert(with_attr(f0, key_enabled(), v1) == Some(f1));
    assert(with_attr(f1, key_name(), v2) == Some(f2));
    assert(with_attr(f2, key_fold(), v3) == Some(f3));
    assert(with_attr(f3, key_id(), v4) == Some(f4));
    let q = p + e5.len();
    assert(parse_attrs(s, q, f4) == Some((f4, q)));
    assert(parse_attrs(s, p + e4.len(), f3) == parse_attrs(s, q, f4));
    assert(parse_attrs(s, p + e3.len(), f2) == parse_attrs(s, p + e4.len(), f3));
    assert(parse_attrs(s, p + e2.len(), f1) == parse_attrs(s, p + e3.len(), f2));
    assert(parse_attrs(s, p + e1.len(), f0) == parse_attrs(s, p + e2.len(), f1));
}

/// The four attribute names are names and differ from each other.
proof fn lemma_keys()
    ensures
        forall|k: int| 0 <= k < key_enabled().len() ==> is_name_char(#[trigger] key_enabled()[k]),
        forall|k: int| 0 <= k < key_name().len() ==> is_name_char(#[trigger] key_name()[k]),
        forall|k: int| 0 <= k < key_fold().len() ==> is_name_char(#[trigger] key_fold()[k]),
        forall|k: int| 0 <= k < key_id().len() ==> is_name_char(#[trigger] key_id()[k]),
        key_enabled().len() == 7,
        key_name().len() == 4,
        key_fold().len() == 18,
        key_id().len() == 16,
{
    assert forall|k: int| 0 <= k < key_enabled().len() implies is_name_char(
        #[trigger] key_enabled()[k],
    ) by {}
    assert forall|k: int| 0 <= k < key_name().len() implies is_name_char(#[trigger] key_name()[k]) by {}
    assert forall|k: int| 0 <= k < key_fold().len() implies is_name_char(#[trigger] key_fold()[k]) by {}
    assert forall|k: int| 0 <= k < key_id().len() implies is_name_char(#[trigger] key_id()[k]) by {}
}

proof fn lemma_mods(s: Seq<char>, p: int, l: Seq<ModView>)
    requires
        0 <= p,
        has_at(s, p + encoded_mods(l).len(), seq!['<', '/']),
        s.subrange(p, p + encoded_mods(l).len()) == encoded_mods(l),
    ensures
        parse_mods(s, p) == Some((l, p + encoded_mods(l).len())),
    decreases l.len(),
{
    let q = p + encoded_mods(l).len();
    assert(s[q] == '<' && s[q + 1] == '/') by {
        assert(s.subrange(q, q + 2)[0] == s[q]);
        assert(s.subrange(q, q + 2)[1] == s[q + 1]);
    }
    if l.len() == 0 {
        assert(skip_ws(s, p) == p);
        assert(l =~= Seq::<ModView>::empty());
    } else {
        let e0 = encoded_mod(l[0]);
        let rest = encoded_mods(l.drop_first());
        let all = e0 + rest;
        assert(all.subrange(0, e0.len() as int) =~= e0);
        lemma_sub_of(s, p, all, 0, e0);
        assert(all.subrange(e0.len() as int, all.len() as int) =~= rest);
        lemma_sub_of(s, p, all, e0.len() as int, rest);
        assert(e0[0] == '<' && e0[1] == 'M');
        assert(skip_ws(s, p) == p);
        assert(!has_at(s, p, seq!['<', '/'])) by {
            assert(s.subrange(p, p + 2)[1] == s[p + 1]);
        }
        lemma_mod(s, p, l[0]);
        lemma_mods(s, p + e0.len(), l.drop_first());
        assert(seq![l[0]] + l.drop_first() =~= l);
    }
}

/// Writing a mod list and reading the text back gives the same list, in the
/// same order.
pub proof fn lemma_round_trip(l: Seq<ModView>)
    ensures
        parse_doc(encoded_doc(l)) == Some(l),
{
    let t0 = seq!['<', 'M', 'o', 'd', 's', '>'];
    let t1 = seq!['<', '/', 'M', 'o', 'd', 's', '>'];
    let m = encoded_mods(l);
    let s = encoded_doc(l);
    let ml = m.len() as int;
    lemma_three_parts(t0, m, t1);
    assert(s.len() == ml + 13);
    lemma_doc_tags(s, ml);
    lemma_mods(s, 6, l);
}

proof fn lemma_three_parts(a: Seq<char>, b: Seq<char>, c: Seq<char>)
    ensures
        (a + b + c).subrange(0, a.len() as int) == a,
        (a + b + c).subrange(a.len() as int, (a.len() + b.len()) as int) == b,
        (a + b + c).subrange((a.len() + b.len()) as int, (a.len() + b.len() + c.len()) as int) == c,
{
    let x = a + b;
    let s = x + c;
    assert(s.subrange(0, a.len() as int) =~= a) by {
        assert forall|k: int| 0 <= k < a.len() implies s[k] == a[k] by {
            assert(s[k] == x[k]);
        }
    }
    assert(s.subrange(a.len() as int, (a.len() + b.len()) as int) =~= b) by {
        assert forall|k: int| 0 <= k < b.len() implies s[a.len() + k] == b[k] by {
            assert(s[a.len() + k] == x[a.len() + k]);
        }
    }
    assert(s.subrange((a.len() + b.len()) as int, (a.len() + b.len() + c.len()) as int) =~= c);
}

proof fn lemma_doc_tags(s: Seq<char>, ml: int)
    requires
        0 <= ml,
        s.len() == ml + 13,
        s.subrange(0, 6) == seq!['<', 'M', 'o', 'd', 's', '>'],
        s.subrange(6 + ml, 13 + ml) == seq!['<', '/', 'M', 'o', 'd', 's', '>'],
    ensures
        skip_prolog(s, skip_ws(s, 0)) == 0,
        has_at(s, 0, open_mods()),
        skip_ws(s, 5) == 5,
        !has_at(s, 5, seq!['/', '>']),
        s[5] == '>',
        has_at(s, 6 + ml, seq!['<', '/']),
        has_at(s, 6 + ml, close_mods_tag()),
        skip_ws(s, ml + 12) == ml + 12,
        s[ml + 12] == '>',
        skip_ws(s, ml + 13) == ml + 13,
{
    let t0 = seq!['<', 'M', 'o', 'd', 's', '>'];
    let t1 = seq!['<', '/', 'M', 'o', 'd', 's', '>'];
    assert(t0.subrange(0, 6) =~= t0);
    assert(t1.subrange(0, 7) =~= t1);
    lemma_sub_of(s, 0, t0, 0, t0);
    lemma_sub_of(s, 6 + ml, t1, 0, t1);
    assert(t0.subrange(0, 5) =~= open_mods());
    lemma_sub_of(s, 0, t0, 0, open_mods());
    assert(t1.subrange(0, 2) =~= seq!['<', '/']);
    lemma_sub_of(s, 6 + ml, t1, 0, seq!['<', '/']);
    assert(t1.subrange(0, 6) =~= close_mods_tag());
    lemma_sub_of(s, 6 + ml, t1, 0, close_mods_tag());
    assert(s[0] == '<' && s[1] == 'M' && s[5] == '>');
    assert(skip_ws(s, 0) == 0);
    assert(!has_at(s, 0, seq!['<', '?'])) by {
        assert(s.subrange(0, 2)[1] == s[1]);
    }
    assert(!has_at(s, 5, seq!['/', '>'])) by {
        assert(s.subrange(5, 7)[0] == s[5]);
    }
}

proof fn lemma_encoded_mods_push(l: Seq<ModView>, m: ModView)
    ensures
        encoded_mods(l.push(m)) == encoded_mods(l) + encoded_mod(m),
    decreases l.len(),
{
    if l.len() == 0 {
        assert(l.push(m).drop_first() =~= Seq::<ModView>::empty());
        assert(l.push(m)[0] == m);
        assert(encoded_mods(Seq::<ModView>::empty()) == Seq::<char>::empty());
        assert(encoded_mods(l) == Seq::<char>::empty());
        assert(encoded_mods(l.push(m)) =~= encoded_mod(m));
    } else {
        assert(l.push(m).drop_first() =~= l.drop_first().push(m));
        lemma_encoded_mods_push(l.drop_first(), m);
        assert(encoded_mods(l.push(m)) =~= encoded_mods(l) + encoded_mod(m));
    }
}

proof fn lemma_digits_prefix(v: Seq<char>, j: int)
    requires
        0 <= j <= v.len(),
    ensures
        digits_value(v.subrange(0, j)) <= digits_value(v),
    decreases v.len() - j,
{
    if j < v.len() {
        lemma_digits_prefix(v, j + 1);
        let w = v.subrange(0, j + 1);
        assert(w.drop_last() =~= v.subrange(0, j));
    } else {
        assert(v.subrange(0, j) =~= v);
    }
}

// ----- writing -----

fn push_chars(out: &mut String, cs: &[char])
    ensures
        final(out)@ == old(out)@ + cs@,
{
    let mut i: usize = 0;
    while i < cs.len()
        invariant
            i <= cs.len(),
            out@ == old(out)@ + cs@.subrange(0, i as int),
        decreases cs.len() - i,
    {
        push_char(out, cs[i]);
        i = i + 1;
        assert(out@ =~= old(out)@ + cs@.subrange(0, i as int));
    }
    assert(cs@.subrange(0, i as int) =~= cs@);
}

pub(crate) fn push_decimal(out: &mut String, n: usize)
    ensures
        final(out)@ == old(out)@ + decimal(n as nat),
    decreases n,
{
    if n >= 10 {
        push_decimal(out, n / 10);
    }
    let d = (n % 10) as u8;
    push_char(out, (d + 48) as char);
    assert(out@ =~= old(out)@ + decimal(n as nat));
}

fn push_bool(out: &mut String, b: bool)
    ensures
        final(out)@ == old(out)@ + bool_text(b),
{
    if b {
        push_chars(out, &['1']);
    } else {
        push_chars(out, &['0']);
    }
}

/// Appends ` key="`.
fn push_attr_start(out: &mut String, key: &[char])
    ensures
        final(out)@ == old(out)@ + seq![' '] + key@ + seq!['=', '"'],
{
    push_chars(out, &[' ']);
    push_chars(out, key);
    push_chars(out, &['=', '"']);
}

fn push_mod(out: &mut String, m: &Mod)
    ensures
        final(out)@ == old(out)@ + encoded_mod(m@),
{
    let ghost o = out@;
    push_chars(out, &['<', 'M', 'o', 'd']);
    push_attr_start(out, &['e', 'n', 'a', 'b', 'l', 'e', 'd']);
    push_bool(out, m.enabled);
    push_chars(out, &['"']);
    let ghost o1 = out@;
    push_attr_start(out, &['n', 'a', 'm', 'e']);
    let esc = escape_value(m.name.as_str());
    out.append(esc.as_str());
    push_chars(out, &['"']);
    let ghost o2 = out@;
    push_attr_start(
        out,
        &['s', 'e', 't', 't', 'i', 'n', 'g', 's', '_', 'f', 'o', 'l', 'd', '_', 'o', 'p', 'e', 'n'],
    );
    push_bool(out, m.settings_fold_open);
    push_chars(out, &['"']);
    let ghost o3 = out@;
    push_attr_start(
        out,
        &['w', 'o', 'r', 'k', 's', 'h', 'o', 'p', '_', 'i', 't', 'e', 'm', '_', 'i', 'd'],
    );
    push_decimal(out, m.workshop_item_id);
    push_chars(out, &['"']);
    let ghost o4 = out@;
    push_chars(out, &['/', '>']);
    assert(o1 =~= o + open_mod() + encoded_attr(key_enabled(), bool_text(m.enabled)));
    assert(o2 =~= o1 + encoded_attr(key_name(), xml_escaped(m.name@)));
    assert(o3 =~= o2 + encoded_attr(key_fold(), bool_text(m.settings_fold_open)));
    assert(o4 =~= o3 + encoded_attr(key_id(), decimal(m.workshop_item_id as nat)));
    assert(out@ =~= o + encoded_mod(m@));
}

impl Mods {
    /// The text of the mod-list file for this list.
    pub fn to_xml(&self) -> (r: String)
        ensures
            r@ == encoded_doc(self@),
    {
        let mut out = String::new();
        push_chars(&mut out, &['<', 'M', 'o', 'd', 's', '>']);
        let mut i: usize = 0;
        while i < self.mods.len()
            invariant
                i <= self.mods.len(),
                out@ == seq!['<', 'M', 'o', 'd', 's', '>'] + encoded_mods(
                    self@.subrange(0, i as int),
                ),
            decreases self.mods.len() - i,
        {
            push_mod(&mut out, &self.mods[i]);
            proof {
                assert(self@.subrange(0, i + 1) =~= self@.subrange(0, i as int).push(
                    self.mods@[i as int]@,
                ));
                lemma_encoded_mods_push(self@.subrange(0, i as int), self.mods@[i as int]@);
            }
            i = i + 1;
        }
        push_chars(&mut out, &['<', '/', 'M', 'o', 'd', 's', '>']);
        assert(self@.subrange(0, i as int) =~= self@);
        out
    }
}

// ----- reading -----

fn chars_of(text: &str) -> (r: Vec<char>)
    ensures
        r@ == text@,
{
    broadcast use vstd::string::group_string_axioms;

    let mut v: Vec<char> = Vec::new();
    for c in it: text.chars()
        invariant
            v@ == it.history(),
    {
        v.push(c);
    }
    assert(v@ =~= text@);
    v
}

fn is_ws_char(c: char) -> (r: bool)
    ensures
        r == is_ws(c),
{
    c == ' ' || c == '\t' || c == '\n' || c == '\r'
}

fn skip_ws_at(s: &Vec<char>, p: usize) -> (r: usize)
    requires
        p <= s.len(),
    ensures
        r as int == skip_ws(s@, p as int),
        p <= r <= s.len(),
{
    let mut i = p;
    while i < s.len() && is_ws_char(s[i])
        invariant
            p <= i <= s.len(),
            skip_ws(s@, i as int) == skip_ws(s@, p as int),
        decreases s.len() - i,
    {
        i = i + 1;
    }
    i
}

/// Whether `s[a..b]` equals `lit`.
fn range_eq(s: &Vec<char>, a: usize, b: usize, lit: &[char]) -> (r: bool)
    requires
        a <= b <= s.len(),
    ensures
        r == (s@.subrange(a as int, b as int) == lit@),
{
    if b - a != lit.len() {
        assert(s@.subrange(a as int, b as int).len() != lit@.len());
        return false;
    }
    let mut k: usize = 0;
    while k < lit.len()
        invariant
            k <= lit.len(),
            b - a == lit.len(),
            a <= b <= s.len(),
            forall|j: int| 0 <= j < k ==> s@[a + j] == lit@[j],
        decreases lit.len() - k,
    {
        if s[a + k] != lit[k] {
            assert(s@.subrange(a as int, b as int)[k as int] != lit@[k as int]);
            return false;
        }
        k = k + 1;
    }
    assert(s@.subrange(a as int, b as int) =~= lit@);
    true
}

fn lit_at(s: &Vec<char>, i: usize, lit: &[char]) -> (r: bool)
    ensures
        r == has_at(s@, i as int, lit@),
{
    if i > s.len() || lit.len() > s.len() - i {
        return false;
    }
    range_eq(s, i, i + lit.len(), lit)
}

fn find_char_at(s: &Vec<char>, p: usize, c: char) -> (r: usize)
    requires
        p <= s.len(),
    ensures
        r as int == find_char(s@, p as int, c),
        p <= r <= s.len(),
{
    let mut i = p;
    while i < s.len() && s[i] != c
        invariant
            p <= i <= s.len(),
            find_char(s@, i as int, c) == find_char(s@, p as int, c),
        decreases s.len() - i,
    {
        i = i + 1;
    }
    i
}

fn is_name_char_exec(c: char) -> (r: bool)
    ensures
        r == is_name_char(c),
{
    ('a' <= c && c <= 'z') || ('A' <= c && c <= 'Z') || ('0' <= c && c <= '9') || c == '_' || c
        == '-' || c == ':' || c == '.'
}

fn name_end_at(s: &Vec<char>, p: usize) -> (r: usize)
    requires
        p <= s.len(),
    ensures
        r as int == name_end(s@, p as int),
        p <= r <= s.len(),
{
    let mut i = p;
    while i < s.len() && is_name_char_exec(s[i])
        invariant
            p <= i <= s.len(),
            name_end(s@, i as int) == name_end(s@, p as int),
        decreases s.len() - i,
    {
        i = i + 1;
    }
    i
}

fn find_pi_end_at(s: &Vec<char>, p: usize) -> (r: usize)
    requires
        p <= s.len(),
    ensures
        r as int == find_pi_end(s@, p as int),
        p <= r <= s.len(),
{
    let mut i = p;
    while i < s.len() && i + 1 < s.len() && !(s[i] == '?' && s[i + 1] == '>')
        invariant
            p <= i <= s.len(),
            find_pi_end(s@, i as int) == find_pi_end(s@, p as int),
        decreases s.len() - i,
    {
        i = i + 1;
    }
    i
}

/// Parses one attribute at `p`: the bounds of its name and of its raw
/// value, and the position after it.
fn parse_attr_at(s: &Vec<char>, p: usize) -> (r: Option<(usize, usize, usize, usize, usize)>)
    requires
        p <= s.len(),
    ensures
        r is None <==> parse_attr(s@, p as int) is None,
        r matches Some((i, j, a, b, e)) ==> i <= j <= s.len() && a <= b <= s.len() && e <= s.len()
            && parse_attr(s@, p as int) == Some(
            (s@.subrange(i as int, j as int), s@.subrange(a as int, b as int), e as int),
        ),
{
    let i = skip_ws_at(s, p);
    let j = name_end_at(s, i);
    if !(p < i && i < j) {
        return None;
    }
    let k = skip_ws_at(s, j);
    if !(k < s.len() && s[k] == '=') {
        return None;
    }
    let m = skip_ws_at(s, k + 1);
    if !(m < s.len() && (s[m] == '"' || s[m] == '\'')) {
        return None;
    }
    let e = find_char_at(s, m + 1, s[m]);
    if e < s.len() {
        Some((i, j, m + 1, e, e + 1))
    } else {
        None
    }
}

fn close_mod_at(s: &Vec<char>, p: usize) -> (r: Option<usize>)
    requires
        p <= s.len(),
    ensures
        r is None <==> close_mod(s@, p as int) is None,
        r matches Some(e) ==> e <= s.len() && close_mod(s@, p as int) == Some(e as int),
{
    let j = skip_ws_at(s, p);
    if lit_at(s, j, &['/', '>']) {
        return Some(j + 2);
    }
    if !(j < s.len() && s[j] == '>') {
        return None;
    }
    let r = skip_ws_at(s, j + 1);
    if !lit_at(s, r, &['<', '/', 'M', 'o', 'd']) {
        return None;
    }
    let t = skip_ws_at(s, r + 5);
    if t < s.len() && s[t] == '>' {
        Some(t + 1)
    } else {
        None
    }
}

fn bool_at(s: &Vec<char>, a: usize, b: usize) -> (r: Option<bool>)
    requires
        a <= b <= s.len(),
    ensures
        r == bool_of(s@.subrange(a as int, b as int)),
{
    let one: [char; 1] = ['1'];
    let zero: [char; 1] = ['0'];
    assert(one@ =~= seq!['1']);
    assert(zero@ =~= seq!['0']);
    let t1 = range_eq(s, a, b, &one);
    let t2 = range_eq(s, a, b, &['t', 'r', 'u', 'e']);
    let f1 = range_eq(s, a, b, &zero);
    let f2 = range_eq(s, a, b, &['f', 'a', 'l', 's', 'e']);
    let ghost v = s@.subrange(a as int, b as int);
    assert(t1 == (v == seq!['1']));
    assert(t2 == (v == seq!['t', 'r', 'u', 'e']));
    assert(f1 == (v == seq!['0']));
    assert(f2 == (v == seq!['f', 'a', 'l', 's', 'e']));
    if t1 || t2 {
        Some(true)
    } else if f1 || f2 {
        Some(false)
    } else {
        None
    }
}

fn id_at(s: &Vec<char>, a: usize, b: usize) -> (r: Option<usize>)
    requires
        a <= b <= s.len(),
    ensures
        r == id_of(s@.subrange(a as int, b as int)),
{
    let ghost v = s@.subrange(a as int, b as int);
    if a == b {
        return None;
    }
    let mut acc: usize = 0;
    let mut k: usize = a;
    while k < b
        invariant
            a <= k <= b <= s.len(),
            v == s@.subrange(a as int, b as int),
            acc as nat == digits_value(v.subrange(0, k - a)),
            forall|j: int| 0 <= j < k - a ==> is_digit(#[trigger] v[j]),
        decreases b - k,
    {
        let c = s[k];
        if !('0' <= c && c <= '9') {
            assert(!is_digit(v[k - a]));
            return None;
        }
        let d = (c as u32 - 48) as usize;
        proof {
            let w = v.subrange(0, k - a + 1);
            assert(w.drop_last() =~= v.subrange(0, k - a));
            assert(w.last() == c);
        }
        match acc.checked_mul(10) {
            None => {
                proof {
                    lemma_digits_prefix(v, k - a + 1);
                }
                return None;
            },
            Some(x) => match x.checked_add(d) {
                None => {
                    proof {
                        lemma_digits_prefix(v, k - a + 1);
                    }
                    return None;
                },
                Some(y) => {
                    acc = y;
                },
            },
        }
        k = k + 1;
    }
    assert(v.subrange(0, b - a) =~= v);
    Some(acc)
}

fn string_of_range(s: &Vec<char>, a: usize, b: usize) -> (r: String)
    requires
        a <= b <= s.len(),
    ensures
        r@ == s@.subrange(a as int, b as int),
{
    let mut out = String::new();
    let mut k = a;
    while k < b
        invariant
            a <= k <= b <= s.len(),
            out@ == s@.subrange(a as int, k as int),
        decreases b - k,
    {
        push_char(&mut out, s[k]);
        k = k + 1;
        assert(out@ =~= s@.subrange(a as int, k as int));
    }
    out
}

fn text_at(s: &Vec<char>, a: usize, b: usize) -> (r: Option<String>)
    requires
        a <= b <= s.len(),
    ensures
        r is None <==> attr_text(s@.subrange(a as int, b as int)) is None,
        r matches Some(t) ==> attr_text(s@.subrange(a as int, b as int)) == Some(t@),
{
    let raw = string_of_range(s, a, b);
    unescape_value(raw.as_str())
}

/// The attributes of a `Mod` element read so far.
struct ReadFields {
    enabled: Option<bool>,
    name: Option<String>,
    settings_fold_open: Option<bool>,
    workshop_item_id: Option<usize>,
}

impl ReadFields {
    spec fn view(&self) -> ModFields {
        ModFields {
            enabled: self.enabled,
            name: match self.name {
                Some(t) => Some(t@),
                None => None,
            },
            settings_fold_open: self.settings_fold_open,
            workshop_item_id: self.workshop_item_id,
        }
    }
}

fn parse_attrs_at(s: &Vec<char>, p0: usize) -> (r: Option<(ReadFields, usize)>)
    requires
        p0 <= s.len(),
    ensures
        r is None <==> parse_attrs(s@, p0 as int, no_fields()) is None,
        r matches Some((f, q)) ==> q <= s.len() && parse_attrs(s@, p0 as int, no_fields()) == Some(
            (f.view(), q as int),
        ),
{
    let mut f = ReadFields {
        enabled: None,
        name: None,
        settings_fold_open: None,
        workshop_item_id: None,
    };
    let mut p = p0;
    loop
        invariant
            p <= s.len(),
            parse_attrs(s@, p0 as int, no_fields()) == parse_attrs(s@, p as int, f.view()),
        decreases s.len() - p,
    {
        let i = skip_ws_at(s, p);
        if i < s.len() && (s[i] == '/' || s[i] == '>') {
            return Some((f, i));
        }
        let (ks, ke, vs, ve, e) = match parse_attr_at(s, p) {
            None => return None,
            Some(x) => x,
        };
        if !(p < e && e <= s.len()) {
            return None;
        }
        let ghost key = s@.subrange(ks as int, ke as int);
        let ghost raw = s@.subrange(vs as int, ve as int);
        let ghost before = f.view();
        if range_eq(s, ks, ke, &['e', 'n', 'a', 'b', 'l', 'e', 'd']) {
            if f.enabled.is_some() {
                return None;
            }
            match bool_at(s, vs, ve) {
                None => return None,
                Some(b) => {
                    f.enabled = Some(b);
                },
            }
        } else if range_eq(s, ks, ke, &['n', 'a', 'm', 'e']) {
            if f.name.is_some() {
                return None;
            }
            match text_at(s, vs, ve) {
                None => return None,
                Some(t) => {
                    f.name = Some(t);
                },
            }
        } else if range_eq(
            s,
            ks,
            ke,
            &['s', 'e', 't', 't', 'i', 'n', 'g', 's', '_', 'f', 'o', 'l', 'd', '_', 'o', 'p', 'e', 'n'],
        ) {
            if f.settings_fold_open.is_some() {
                return None;
            }
            match bool_at(s, vs, ve) {
                None => return None,
                Some(b) => {
                    f.settings_fold_open = Some(b);
                },
            }
        } else if range_eq(
            s,
            ks,
            ke,
            &['w', 'o', 'r', 'k', 's', 'h', 'o', 'p', '_', 'i', 't', 'e', 'm', '_', 'i', 'd'],
        ) {
            if f.workshop_item_id.is_some() {
                return None;
            }
            match id_at(s, vs, ve) {
                None => return None,
                Some(v) => {
                    f.workshop_item_id = Some(v);
                },
            }
        }
        assert(with_attr(before, key, raw) == Some(f.view()));
        p = e;
    }
}

fn parse_mod_at(s: &Vec<char>, p: usize) -> (r: Option<(Mod, usize)>)
    requires
        p <= s.len(),
    ensures
        r is None <==> parse_mod(s@, p as int) is None,
        r matches Some((m, e)) ==> e <= s.len() && parse_mod(s@, p as int) == Some((m@, e as int)),
{
    let i = skip_ws_at(s, p);
    if !lit_at(s, i, &['<', 'M', 'o', 'd']) {
        return None;
    }
    let (f, q) = match parse_attrs_at(s, i + 4) {
        None => return None,
        Some(x) => x,
    };
    let e = match close_mod_at(s, q) {
        None => return None,
        Some(e) => e,
    };
    match (f.enabled, f.name, f.settings_fold_open, f.workshop_item_id) {
        (Some(enabled), Some(name), Some(settings_fold_open), Some(workshop_item_id)) => {
            Some((Mod { enabled, name, settings_fold_open, workshop_item_id }, e))
        },
        _ => None,
    }
}

fn parse_mods_at(s: &Vec<char>, p0: usize) -> (r: Option<(Vec<Mod>, usize)>)
    requires
        p0 <= s.len(),
    ensures
        r is None <==> parse_mods(s@, p0 as int) is None,
        r matches Some((v, q)) ==> q <= s.len() && parse_mods(s@, p0 as int) == Some(
            (views_of(v@), q as int),
        ),
{
    let mut acc: Vec<Mod> = Vec::new();
    let mut p = p0;
    loop
        invariant
            p <= s.len(),
            parse_mods(s@, p0 as int) == match parse_mods(s@, p as int) {
                Some((rest, q)) => Some((views_of(acc@) + rest, q)),
                None => None,
            },
        decreases s.len() - p,
    {
        let i = skip_ws_at(s, p);
        if lit_at(s, i, &['<', '/']) {
            assert(views_of(acc@) + Seq::<ModView>::empty() =~= views_of(acc@));
            return Some((acc, i));
        }
        match parse_mod_at(s, i) {
            None => {
                return None;
            },
            Some((m, e)) => {
                if !(p < e && e <= s.len()) {
                    return None;
                }
                let ghost old_acc = acc@;
                let ghost mv = m@;
                acc.push(m);
                proof {
                    assert(views_of(acc@) =~= views_of(old_acc).push(mv));
                    match parse_mods(s@, e as int) {
                        Some((rest, q)) => {
                            assert(views_of(old_acc) + (seq![mv] + rest) =~= views_of(acc@)
                                + rest);
                        },
                        None => {},
                    }
                }
                p = e;
            },
        }
    }
}

fn skip_prolog_at(s: &Vec<char>, i: usize) -> (r: Option<usize>)
    requires
        i <= s.len(),
    ensures
        r is None <==> skip_prolog(s@, i as int) == -1,
        r matches Some(x) ==> x <= s.len() && x as int == skip_prolog(s@, i as int),
{
    if !lit_at(s, i, &['<', '?']) {
        return Some(i);
    }
    let e = find_pi_end_at(s, i + 2);
    if e < s.len() && e + 1 < s.len() {
        Some(skip_ws_at(s, e + 2))
    } else {
        None
    }
}

fn parse_doc_at(s: &Vec<char>) -> (r: Option<Vec<Mod>>)
    ensures
        r is None <==> parse_doc(s@) is None,
        r matches Some(v) ==> parse_doc(s@) == Some(views_of(v@)),
{
    let i0 = skip_ws_at(s, 0);
    let i = match skip_prolog_at(s, i0) {
        None => return None,
        Some(i) => i,
    };
    if !lit_at(s, i, &['<', 'M', 'o', 'd', 's']) {
        return None;
    }
    let j = skip_ws_at(s, i + 5);
    if lit_at(s, j, &['/', '>']) {
        if skip_ws_at(s, j + 2) == s.len() {
            let v: Vec<Mod> = Vec::new();
            assert(views_of(v@) =~= Seq::<ModView>::empty());
            return Some(v);
        }
        return None;
    }
    if !(j < s.len() && s[j] == '>') {
        return None;
    }
    let (l, k) = match parse_mods_at(s, j + 1) {
        None => return None,
        Some(x) => x,
    };
    if !lit_at(s, k, &['<', '/', 'M', 'o', 'd', 's']) {
        return None;
    }
    let m = skip_ws_at(s, k + 6);
    if m < s.len() && s[m] == '>' && skip_ws_at(s, m + 1) == s.len() {
        Some(l)
    } else {
        None
    }
}

impl Mods {
    /// Reads a mod list from the text of a mod-list file.
    pub fn from_xml(text: &str) -> (r: Result<Mods, NoitadError>)
        ensures
            r is Ok <==> parse_doc(text@) is Some,
            r matches Ok(m) ==> parse_doc(text@) == Some(m@),
            r matches Err(e) ==> e == NoitadError::Decode,
    {
        let s = chars_of(text);
        match parse_doc_at(&s) {
            Some(mods) => Ok(Mods { mods }),
            None => Err(NoitadError::Decode),
        }
    }
}

} // verus!
