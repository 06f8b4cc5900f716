//! References to uploaded files in HTML and CSS.
//!
//! A reference is `uploads/{name}`, with the slash before it when there is
//! one. An export replaces each reference to a stored image with a `data:`
//! URI, so the file stands alone.

use vstd::prelude::*;

use crate::model;
use crate::model::{Design, Document, Mailing, Unit, UnitModel};
use crate::text;
use crate::text::{chars_of, find_text, part, push_chars, spells, text_of};

verus! {

/// The characters of an upload name.
pub open spec fn is_name_char(c: char) -> bool {
    'a' <= c <= 'z' || text::is_digit(c) || c == '-' || c == '.'
}

fn name_char(c: char) -> (r: bool)
    ensures
        r == is_name_char(c),
{
    ('a' <= c && c <= 'z') || text::digit(c) || c == '-' || c == '.'
}

/// Where the upload name that begins at `i` ends.
pub open spec fn name_end(s: Seq<char>, i: int) -> int
    decreases s.len() - i,
{
    if 0 <= i < s.len() && is_name_char(s[i]) {
        name_end(s, i + 1)
    } else {
        i
    }
}

proof fn lemma_name_end(s: Seq<char>, i: int)
    requires
        0 <= i <= s.len(),
    ensures
        i <= name_end(s, i) <= s.len(),
        forall|k: int| i <= k < name_end(s, i) ==> is_name_char(#[trigger] s[k]),
    decreases s.len() - i,
{
    if i < s.len() && is_name_char(s[i]) {
        lemma_name_end(s, i + 1);
    }
}

fn find_name_end(chars: &[char], from: usize) -> (r: usize)
    requires
        from <= chars@.len(),
    ensures
        r == name_end(chars@, from as int),
        from <= r <= chars@.len(),
{
    let mut i: usize = from;
    while i < chars.len() && name_char(chars[i])
        invariant
            from <= i <= chars@.len(),
            name_end(chars@, from as int) == name_end(chars@, i as int),
        decreases chars@.len() - i,
    {
        i += 1;
    }
    i
}

/// True for a name that a stored upload can have: name characters only, and
/// no leading dot. Such a name holds no path separator.
pub open spec fn is_upload_name(name: Seq<char>) -> bool {
    name.len() > 0 && name[0] != '.' && forall|k: int|
        0 <= k < name.len() ==> is_name_char(#[trigger] name[k])
}

/// True for a name that a stored upload can have.
pub fn is_stored_name(name: &str) -> (r: bool)
    ensures
        r == is_upload_name(name@),
{
    let chars = chars_of(name);
    if chars.len() == 0 || chars[0] == '.' {
        return false;
    }
    let mut i: usize = 0;
    while i < chars.len()
        invariant
            i <= chars@.len(),
            chars@ == name@,
            forall|k: int| 0 <= k < i ==> is_name_char(#[trigger] chars@[k]),
        decreases chars@.len() - i,
    {
        if !name_char(chars[i]) {
            assert(!is_name_char(name@[i as int]));
            return false;
        }
        i += 1;
    }
    true
}

// -- References -------------------------------------------------------------

/// One reference: where it starts, the name, and where it ends.
pub struct ReferenceModel {
    pub start: int,
    pub name: Seq<char>,
    pub end: int,
}

/// The references in `s` at or after `from`, in order.
pub open spec fn references_from(s: Seq<char>, from: int) -> Seq<ReferenceModel>
    decreases s.len() - from,
    via references_decreases
{
    match text::find_from(s, "uploads/"@, from) {
        None => Seq::empty(),
        Some(at) => {
            let end = name_end(s, at + 8);
            let rest = references_from(s, end);
            if end == at + 8 {
                rest
            } else {
                seq![
                    ReferenceModel {
                        start: if at > 0 && s[at - 1] == '/' {
                            at - 1
                        } else {
                            at
                        },
                        name: s.subrange(at + 8, end),
                        end,
                    },
                ] + rest
            }
        },
    }
}

#[via_fn]
proof fn references_decreases(s: Seq<char>, from: int) {
    reveal_strlit("uploads/");
    if from >= 0 {
        text::lemma_find_from(s, "uploads/"@, from);
        if let Some(at) = text::find_from(s, "uploads/"@, from) {
            lemma_name_end(s, at + 8);
        }
    }
}

/// The references in `s`, in order.
pub open spec fn references_in(s: Seq<char>) -> Seq<ReferenceModel> {
    references_from(s, 0)
}

struct Reference {
    start: usize,
    name: Vec<char>,
    end: usize,
}

impl View for Reference {
    type V = ReferenceModel;

    closed spec fn view(&self) -> ReferenceModel {
        ReferenceModel { start: self.start as int, name: self.name@, end: self.end as int }
    }
}

spec fn references_of(list: Seq<Reference>) -> Seq<ReferenceModel> {
    list.map_values(|reference: Reference| reference@)
}

fn find_references(chars: &[char]) -> (r: Vec<Reference>)
    ensures
        references_of(r@) == references_in(chars@),
        forall|k: int|
            0 <= k < r@.len() ==> (#[trigger] r@[k]).start <= r@[k].end <= chars@.len(),
{
    let length: usize = chars.len();
    let mut r: Vec<Reference> = Vec::new();
    let mut from: usize = 0;
    assert(references_of(r@) =~= Seq::<ReferenceModel>::empty());
    assert(Seq::<ReferenceModel>::empty() + references_in(chars@) =~= references_in(chars@));
    loop
        invariant
            from <= length,
            length == chars@.len(),
            references_in(chars@) == references_of(r@) + references_from(chars@, from as int),
            forall|k: int|
                0 <= k < r@.len() ==> (#[trigger] r@[k]).start <= r@[k].end <= chars@.len(),
        ensures
            references_in(chars@) == references_of(r@),
        decreases length - from,
    {
        let Some(at) = find_text(chars, "uploads/", from) else {
            assert(references_of(r@) + Seq::<ReferenceModel>::empty() =~= references_of(r@));
            break;
        };
        proof {
            reveal_strlit("uploads/");
        }
        let end = find_name_end(chars, at + 8);
        if end > at + 8 {
            let start: usize = if at > 0 && chars[at - 1] == '/' {
                at - 1
            } else {
                at
            };
            let ghost before = r@;
            let reference = Reference { start, name: part(chars, at + 8, end), end };
            let ghost model = reference@;
            r.push(reference);
            proof {
                let rest = references_from(chars@, end as int);
                assert(references_of(r@) =~= references_of(before).push(model));
                assert(references_of(before) + (seq![model] + rest) =~= references_of(r@) + rest);
            }
        }
        from = end;
    }
    r
}

/// The byte offset of character `i`.
pub open spec fn byte_offset(s: Seq<char>, i: int) -> int {
    vstd::utf8::encode_utf8(s.take(i)).len() as int
}

/// The byte offset of character `i` of `chars`.
pub fn offset_of(chars: &[char], i: usize) -> (r: usize)
    requires
        i <= chars@.len(),
    ensures
        r == byte_offset(chars@, i as int),
{
    let head = text_of(&part(chars, 0, i));
    assert(chars@.take(i as int) =~= chars@.subrange(0, i as int));
    head.as_str().as_bytes().len()
}

/// Every `/uploads/{name}` reference in `text` as (start, name, end), where
/// `start` and `end` are byte offsets and `end` is right behind the name.
pub fn upload_references(text: &str) -> (r: Vec<(usize, String, usize)>)
    ensures
        r@.len() == references_in(text@).len(),
        forall|k: int|
            0 <= k < r@.len() ==> {
                let reference = references_in(text@)[k];
                &&& (#[trigger] r@[k]).0 == byte_offset(text@, reference.start)
                &&& r@[k].1@ == reference.name
                &&& r@[k].2 == byte_offset(text@, reference.end)
            },
{
    let chars = chars_of(text);
    let found = find_references(&chars);
    let ghost all = references_of(found@);
    let mut r: Vec<(usize, String, usize)> = Vec::new();
    let mut k: usize = 0;
    while k < found.len()
        invariant
            k <= found@.len(),
            k == r@.len(),
            chars@ == text@,
            all == references_of(found@),
            all == references_in(text@),
            forall|j: int|
                0 <= j < found@.len() ==> (#[trigger] found@[j]).start <= found@[j].end
                    <= chars@.len(),
            forall|j: int|
                0 <= j < k ==> {
                    &&& (#[trigger] r@[j]).0 == byte_offset(text@, all[j].start)
                    &&& r@[j].1@ == all[j].name
                    &&& r@[j].2 == byte_offset(text@, all[j].end)
                },
        decreases found@.len() - k,
    {
        assert(all[k as int] == found@[k as int]@);
        let reference = &found[k];
        r.push(
            (
                offset_of(&chars, reference.start),
                text_of(&reference.name),
                offset_of(&chars, reference.end),
            ),
        );
        k += 1;
    }
    r
}

// -- Names ------------------------------------------------------------------

/// The names of the references from position `k`, added to `names`, each
/// once.
pub open spec fn with_names(
    names: Seq<Seq<char>>,
    references: Seq<ReferenceModel>,
    k: int,
) -> Seq<Seq<char>>
    decreases references.len() - k,
{
    if !(0 <= k < references.len()) {
        names
    } else if names.contains(references[k].name) {
        with_names(names, references, k + 1)
    } else {
        with_names(names.push(references[k].name), references, k + 1)
    }
}

/// The upload names that the first `n` texts refer to, in order, each once.
pub open spec fn names_in(list: Seq<Seq<char>>, n: int) -> Seq<Seq<char>>
    decreases n,
{
    if n <= 0 {
        Seq::empty()
    } else {
        with_names(names_in(list, n - 1), references_in(list[n - 1]), 0)
    }
}

/// True when `name` is among the names.
pub fn is_named(names: &Vec<String>, name: &[char]) -> (r: bool)
    ensures
        r == text::strings(names@).contains(name@),
{
    let ghost all = text::strings(names@);
    let mut i: usize = 0;
    while i < names.len()
        invariant
            i <= names@.len(),
            all == text::strings(names@),
            forall|k: int| 0 <= k < i ==> #[trigger] all[k] != name@,
        decreases names@.len() - i,
    {
        assert(all[i as int] == names@[i as int]@);
        if spells(name, names[i].as_str()) {
            return true;
        }
        i += 1;
    }
    false
}

/// Adds every upload name referenced in `text` to `names`, once.
pub fn collect_upload_names(text: &str, names: &mut Vec<String>)
    ensures
        text::strings(final(names)@) == with_names(
            text::strings(old(names)@),
            references_in(text@),
            0,
        ),
{
    let chars = chars_of(text);
    let found = find_references(&chars);
    let ghost all = references_of(found@);
    let ghost start = text::strings(names@);
    let mut k: usize = 0;
    while k < found.len()
        invariant
            k <= found@.len(),
            all == references_of(found@),
            with_names(start, all, 0) == with_names(text::strings(names@), all, k as int),
        decreases found@.len() - k,
    {
        assert(all[k as int] == found@[k as int]@);
        if !is_named(names, &found[k].name) {
            let ghost before = names@;
            let name = text_of(&found[k].name);
            names.push(name);
            assert(text::strings(names@) =~= text::strings(before).push(name@));
        }
        k += 1;
    }
}

proof fn lemma_with_names_unique(
    names: Seq<Seq<char>>,
    references: Seq<ReferenceModel>,
    k: int,
)
    requires
        names.no_duplicates(),
    ensures
        with_names(names, references, k).no_duplicates(),
    decreases references.len() - k,
{
    if 0 <= k < references.len() {
        if names.contains(references[k].name) {
            lemma_with_names_unique(names, references, k + 1);
        } else {
            let more = names.push(references[k].name);
            assert forall|i: int, j: int|
                0 <= i < more.len() && 0 <= j < more.len() && i != j implies more[i] != more[j] by {
                if i == names.len() {
                    assert(names.contains(names[j]));
                }
                if j == names.len() {
                    assert(names.contains(names[i]));
                }
            }
            lemma_with_names_unique(more, references, k + 1);
        }
    }
}

/// However often the texts refer to an upload, its name is collected once.
pub proof fn law_names_are_collected_once(list: Seq<Seq<char>>, n: int)
    ensures
        names_in(list, n).no_duplicates(),
    decreases n,
{
    if n > 0 {
        law_names_are_collected_once(list, n - 1);
        lemma_with_names_unique(names_in(list, n - 1), references_in(list[n - 1]), 0);
    }
}

// -- Replacing --------------------------------------------------------------

/// The `data:` URI of one upload.
pub struct DataUriModel {
    pub name: Seq<char>,
    pub uri: Seq<char>,
}

/// The `data:` URI of one upload.
#[derive(Debug)]
pub struct DataUri {
    pub name: String,
    pub uri: String,
}

impl View for DataUri {
    type V = DataUriModel;

    open spec fn view(&self) -> DataUriModel {
        DataUriModel { name: self.name@, uri: self.uri@ }
    }
}

/// The URIs of a list.
pub open spec fn uris_of(list: Seq<DataUri>) -> Seq<DataUriModel> {
    list.map_values(|uri: DataUri| uri@)
}

/// The URI of the upload `name`, from position `k`.
pub open spec fn uri_for(uris: Seq<DataUriModel>, name: Seq<char>, k: int) -> Option<Seq<char>>
    decreases uris.len() - k,
{
    if !(0 <= k < uris.len()) {
        None
    } else if uris[k].name == name {
        Some(uris[k].uri)
    } else {
        uri_for(uris, name, k + 1)
    }
}

/// What stands for the references of `s` from position `k` on, and the text
/// around them from `cursor` on. A reference without a URI stays.
pub open spec fn replaced_from(
    s: Seq<char>,
    references: Seq<ReferenceModel>,
    uris: Seq<DataUriModel>,
    k: int,
    cursor: int,
) -> Seq<char>
    decreases references.len() - k,
{
    if !(0 <= k < references.len()) {
        s.subrange(cursor, s.len() as int)
    } else {
        let reference = references[k];
        if reference.start < cursor {
            replaced_from(s, references, uris, k + 1, cursor)
        } else {
            let shown = match uri_for(uris, reference.name, 0) {
                Some(uri) => uri,
                None => s.subrange(reference.start, reference.end),
            };
            s.subrange(cursor, reference.start) + shown + replaced_from(
                s,
                references,
                uris,
                k + 1,
                reference.end,
            )
        }
    }
}

/// `s` with each reference to an upload that has a URI replaced by it.
pub open spec fn replaced(s: Seq<char>, uris: Seq<DataUriModel>) -> Seq<char> {
    replaced_from(s, references_in(s), uris, 0, 0)
}

fn find_uri(uris: &Vec<DataUri>, name: &[char]) -> (r: Option<usize>)
    ensures
        match r {
            Some(k) => k < uris@.len() && uri_for(uris_of(uris@), name@, 0) == Some(
                uris@[k as int].uri@,
            ),
            None => uri_for(uris_of(uris@), name@, 0) is None,
        },
{
    let ghost all = uris_of(uris@);
    let mut k: usize = 0;
    while k < uris.len()
        invariant
            k <= uris@.len(),
            all == uris_of(uris@),
            uri_for(all, name@, 0) == uri_for(all, name@, k as int),
        decreases uris@.len() - k,
    {
        assert(all[k as int] == uris@[k as int]@);
        if spells(name, uris[k].name.as_str()) {
            return Some(k);
        }
        k += 1;
    }
    None
}

/// Substitutes data URIs for the upload references that have one.
pub fn replace_upload_references(text: &str, data_uris: &Vec<DataUri>) -> (r: String)
    ensures
        r@ == replaced(text@, uris_of(data_uris@)),
{
    let chars = chars_of(text);
    let found = find_references(&chars);
    let ghost all = references_of(found@);
    let ghost uris = uris_of(data_uris@);
    let mut r = String::new();
    let mut cursor: usize = 0;
    let mut k: usize = 0;
    assert(r@ + replaced(chars@, uris) =~= replaced(chars@, uris));
    while k < found.len()
        invariant
            k <= found@.len(),
            cursor <= chars@.len(),
            all == references_of(found@),
            all == references_in(chars@),
            uris == uris_of(data_uris@),
            forall|j: int|
                0 <= j < found@.len() ==> (#[trigger] found@[j]).start <= found@[j].end
                    <= chars@.len(),
            replaced(chars@, uris) == r@ + replaced_from(
                chars@,
                all,
                uris,
                k as int,
                cursor as int,
            ),
        decreases found@.len() - k,
    {
        assert(all[k as int] == found@[k as int]@);
        let reference = &found[k];
        if reference.start >= cursor {
            let ghost before = r@;
            let ghost rest = replaced_from(chars@, all, uris, k + 1, reference.end as int);
            push_chars(&mut r, &part(&chars, cursor, reference.start));
            match find_uri(data_uris, &reference.name) {
                Some(index) => {
                    r.append(data_uris[index].uri.as_str());
                },
                None => {
                    push_chars(&mut r, &part(&chars, reference.start, reference.end));
                },
            }
            let ghost shown = match uri_for(uris, reference.name@, 0) {
                Some(uri) => uri,
                None => chars@.subrange(reference.start as int, reference.end as int),
            };
            assert(before + (chars@.subrange(cursor as int, reference.start as int) + shown + rest)
                =~= r@ + rest);
            cursor = reference.end;
        }
        k += 1;
    }
    push_chars(&mut r, &part(&chars, cursor, chars.len()));
    r
}

proof fn lemma_references_lie_inside(s: Seq<char>, from: int)
    requires
        0 <= from,
    ensures
        forall|k: int|
            0 <= k < references_from(s, from).len() ==> 0 <= (#[trigger] references_from(
                s,
                from,
            )[k]).start <= references_from(s, from)[k].end <= s.len(),
    decreases s.len() - from,
{
    reveal_strlit("uploads/");
    text::lemma_find_from(s, "uploads/"@, from);
    if let Some(at) = text::find_from(s, "uploads/"@, from) {
        lemma_name_end(s, at + 8);
        let end = name_end(s, at + 8);
        lemma_references_lie_inside(s, end);
        let rest = references_from(s, end);
        let all = references_from(s, from);
        assert forall|k: int| 0 <= k < all.len() implies 0 <= (#[trigger] all[k]).start
            <= all[k].end <= s.len() by {
            if end != at + 8 && k > 0 {
                assert(all[k] == rest[k - 1]);
            } else if end == at + 8 {
                assert(all[k] == rest[k]);
            }
        }
    }
}

/// Without any URI a text stays as it is, whatever it refers to.
pub proof fn law_nothing_to_replace_keeps_the_text(s: Seq<char>)
    ensures
        replaced(s, Seq::empty()) == s,
{
    lemma_references_lie_inside(s, 0);
    lemma_replace_nothing(s, references_in(s), 0, 0);
    assert(s.subrange(0, s.len() as int) =~= s);
}

proof fn lemma_replace_nothing(
    s: Seq<char>,
    references: Seq<ReferenceModel>,
    k: int,
    cursor: int,
)
    requires
        0 <= cursor <= s.len(),
        forall|j: int|
            0 <= j < references.len() ==> 0 <= (#[trigger] references[j]).start
                <= references[j].end <= s.len(),
    ensures
        replaced_from(s, references, Seq::empty(), k, cursor) == s.subrange(
            cursor,
            s.len() as int,
        ),
    decreases references.len() - k,
{
    if 0 <= k < references.len() {
        let reference = references[k];
        if reference.start < cursor {
            lemma_replace_nothing(s, references, k + 1, cursor);
        } else {
            lemma_replace_nothing(s, references, k + 1, reference.end);
            assert(s.subrange(cursor, reference.start) + s.subrange(
                reference.start,
                reference.end,
            ) + s.subrange(reference.end, s.len() as int) =~= s.subrange(cursor, s.len() as int));
        }
    }
}

// -- Units ------------------------------------------------------------------

/// The texts of a list of units: each unit's markup, then its styles.
pub open spec fn unit_texts(units: Seq<UnitModel>) -> Seq<Seq<char>>
    decreases units.len(),
{
    if units.len() == 0 {
        Seq::empty()
    } else {
        let before = unit_texts(units.drop_last()).push(units.last().html);
        match units.last().css {
            Some(css) => before.push(css),
            None => before,
        }
    }
}

/// The upload names that the units refer to, in order, each once.
pub open spec fn names_for(units: Seq<UnitModel>) -> Seq<Seq<char>> {
    names_in(unit_texts(units), unit_texts(units).len() as int)
}

proof fn lemma_names_in_prefix(a: Seq<Seq<char>>, b: Seq<Seq<char>>, n: int)
    requires
        0 <= n <= a.len(),
    ensures
        names_in(a + b, n) == names_in(a, n),
    decreases n,
{
    if n > 0 {
        lemma_names_in_prefix(a, b, n - 1);
        assert((a + b)[n - 1] == a[n - 1]);
    }
}

/// The upload names that the units refer to, in order, each once.
pub fn unit_upload_names<T: Unit>(units: &[T]) -> (names: Vec<String>)
    ensures
        text::strings(names@) == names_for(model::units_of(units@)),
{
    let ghost all = model::units_of(units@);
    let mut names: Vec<String> = Vec::new();
    let mut k: usize = 0;
    assert(text::strings(names@) =~= Seq::<Seq<char>>::empty());
    while k < units.len()
        invariant
            k <= units@.len(),
            all == model::units_of(units@),
            text::strings(names@) == names_for(all.take(k as int)),
        decreases units@.len() - k,
    {
        let ghost before = unit_texts(all.take(k as int));
        let ghost html = all[k as int].html;
        assert(all[k as int] == units@[k as int].model());
        assert(all.take(k + 1).drop_last() =~= all.take(k as int));
        collect_upload_names(units[k].html(), &mut names);
        proof {
            lemma_names_in_prefix(before, seq![html], before.len() as int);
            assert(before + seq![html] =~= before.push(html));
            assert(text::strings(names@) == names_in(before.push(html), (before.len() + 1) as int));
        }
        if let Some(css) = units[k].css() {
            collect_upload_names(css, &mut names);
            proof {
                let more = before.push(html);
                lemma_names_in_prefix(more, seq![css@], more.len() as int);
                assert(more + seq![css@] =~= more.push(css@));
            }
        }
        k += 1;
    }
    assert(all.take(k as int) =~= all);
    names
}

/// A unit with its references replaced.
pub open spec fn inlined(unit: UnitModel, uris: Seq<DataUriModel>) -> UnitModel {
    UnitModel {
        html: replaced(unit.html, uris),
        css: match unit.css {
            Some(css) => Some(replaced(css, uris)),
            None => None,
        },
        ..unit
    }
}

/// Replaces the upload references in the markup and the styles of every
/// unit. Names without a URI stay as written.
pub fn inline_units<T: Unit>(units: &[T], data_uris: &Vec<DataUri>) -> (r: Vec<T>)
    ensures
        model::units_of(r@) == model::units_of(units@).map_values(
            |unit: UnitModel| inlined(unit, uris_of(data_uris@)),
        ),
{
    let mut r: Vec<T> = Vec::new();
    let mut k: usize = 0;
    while k < units.len()
        invariant
            k <= units@.len(),
            k == r@.len(),
            forall|j: int|
                0 <= j < k ==> (#[trigger] r@[j]).model() == inlined(
                    units@[j].model(),
                    uris_of(data_uris@),
                ),
        decreases units@.len() - k,
    {
        let html = replace_upload_references(units[k].html(), data_uris);
        let css = match units[k].css() {
            Some(css) => Some(replace_upload_references(css, data_uris)),
            None => None,
        };
        r.push(units[k].with_content(html, css));
        k += 1;
    }
    assert(model::units_of(r@) =~= model::units_of(units@).map_values(
        |unit: UnitModel| inlined(unit, uris_of(data_uris@)),
    ));
    r
}

/// Replaces the upload references in the screens of a design.
pub fn inline_uploaded_images(design: &mut Design, data_uris: &Vec<DataUri>)
    ensures
        model::units_of(final(design).screens@) == model::units_of(old(design).screens@).map_values(
            |unit: UnitModel| inlined(unit, uris_of(data_uris@)),
        ),
        final(design).title == old(design).title,
        final(design).theme == old(design).theme,
        final(design).viewport == old(design).viewport,
        final(design).transition == old(design).transition,
        final(design).outline == old(design).outline,
{
    design.screens = inline_units(design.screens.as_slice(), data_uris);
}

/// Replaces the upload references in the pages of a document.
pub fn inline_uploaded_page_images(document: &mut Document, data_uris: &Vec<DataUri>)
    ensures
        model::units_of(final(document).pages@) == model::units_of(old(document).pages@).map_values(
            |unit: UnitModel| inlined(unit, uris_of(data_uris@)),
        ),
        final(document).title == old(document).title,
        final(document).theme == old(document).theme,
        final(document).paper == old(document).paper,
        final(document).outline == old(document).outline,
{
    document.pages = inline_units(document.pages.as_slice(), data_uris);
}

/// Replaces the upload references in the emails of a mailing.
pub fn inline_uploaded_email_images(mailing: &mut Mailing, data_uris: &Vec<DataUri>)
    ensures
        model::units_of(final(mailing).emails@) == model::units_of(old(mailing).emails@).map_values(
            |unit: UnitModel| inlined(unit, uris_of(data_uris@)),
        ),
        final(mailing).title == old(mailing).title,
        final(mailing).theme == old(mailing).theme,
        final(mailing).format == old(mailing).format,
        final(mailing).outline == old(mailing).outline,
{
    mailing.emails = inline_units(mailing.emails.as_slice(), data_uris);
}

proof fn lemma_with_names(names: Seq<Seq<char>>, references: Seq<ReferenceModel>, k: int)
    requires
        0 <= k,
    ensures
        names.len() <= with_names(names, references, k).len(),
        with_names(names, references, k).take(names.len() as int) == names,
        forall|j: int|
            k <= j < references.len() ==> with_names(names, references, k).contains(
                (#[trigger] references[j]).name,
            ),
        forall|name: Seq<char>| #[trigger]
            with_names(names, references, k).contains(name) ==> names.contains(name) || exists|
                j: int,
            |
                k <= j < references.len() && (#[trigger] references[j]).name == name,
    decreases references.len() - k,
{
    let all = with_names(names, references, k);
    if k < references.len() {
        let fresh = references[k].name;
        let next = if names.contains(fresh) {
            names
        } else {
            names.push(fresh)
        };
        lemma_with_names(next, references, k + 1);
        assert(all.take(names.len() as int) =~= all.take(next.len() as int).take(
            names.len() as int,
        ));
        assert(next.take(names.len() as int) =~= names);
        assert(next.contains(fresh)) by {
            if !names.contains(fresh) {
                assert(next[next.len() - 1] == fresh);
            }
        }
        let at = choose|at: int| 0 <= at < next.len() && next[at] == fresh;
        assert(all.take(next.len() as int)[at] == fresh);
        assert(all[at] == fresh);
        assert forall|name: Seq<char>| #[trigger] all.contains(name) implies names.contains(name)
            || exists|j: int| k <= j < references.len() && (#[trigger] references[j]).name == name by {
            if next.contains(name) && !names.contains(name) {
                let i = choose|i: int| 0 <= i < next.len() && next[i] == name;
                assert(i == names.len());
                assert(references[k].name == name);
            }
        }
    } else {
        assert(names.take(names.len() as int) =~= names);
    }
}

/// The name of every upload that one of the texts refers to is collected, and
/// no other name is.
pub proof fn law_every_reference_is_collected(list: Seq<Seq<char>>, n: int)
    requires
        0 <= n <= list.len(),
    ensures
        forall|k: int, j: int|
            #![trigger references_in(list[k])[j]]
            0 <= k < n && 0 <= j < references_in(list[k]).len() ==> names_in(list, n).contains(
                references_in(list[k])[j].name,
            ),
        forall|name: Seq<char>| #[trigger]
            names_in(list, n).contains(name) ==> exists|k: int, j: int|
                #![trigger references_in(list[k])[j]]
                0 <= k < n && 0 <= j < references_in(list[k]).len() && references_in(
                    list[k],
                )[j].name == name,
    decreases n,
{
    if n > 0 {
        law_every_reference_is_collected(list, n - 1);
        let before = names_in(list, n - 1);
        let all = names_in(list, n);
        let references = references_in(list[n - 1]);
        lemma_with_names(before, references, 0);
        assert forall|name: Seq<char>| before.contains(name) implies #[trigger] all.contains(
            name,
        ) by {
            let at = choose|at: int| 0 <= at < before.len() && before[at] == name;
            assert(all.take(before.len() as int)[at] == name);
            assert(all[at] == name);
        }
        assert forall|k: int, j: int|
            #![trigger references_in(list[k])[j]]
            0 <= k < n && 0 <= j < references_in(list[k]).len() implies all.contains(
            references_in(list[k])[j].name,
        ) by {
            if k < n - 1 {
                assert(before.contains(references_in(list[k])[j].name));
            } else {
                assert(all.contains(references[j].name));
            }
        }
        assert forall|name: Seq<char>| #[trigger] all.contains(name) implies exists|k: int, j: int|
            #![trigger references_in(list[k])[j]]
            0 <= k < n && 0 <= j < references_in(list[k]).len() && references_in(list[k])[j].name
                == name by {
            if before.contains(name) {
                let (k, j) = choose|k: int, j: int|
                    #![trigger references_in(list[k])[j]]
                    0 <= k < n - 1 && 0 <= j < references_in(list[k]).len() && references_in(
                        list[k],
                    )[j].name == name;
                assert(references_in(list[k])[j].name == name);
            } else {
                let j = choose|j: int|
                    0 <= j < references.len() && (#[trigger] references[j]).name == name;
                assert(references_in(list[n - 1])[j].name == name);
            }
        }
    }
}

/// The names are collected in the order of the texts.
pub proof fn law_names_stand_in_text_order(list: Seq<Seq<char>>, k: int, n: int)
    requires
        0 <= k <= n <= list.len(),
    ensures
        names_in(list, k).len() <= names_in(list, n).len(),
        names_in(list, n).take(names_in(list, k).len() as int) == names_in(list, k),
    decreases n,
{
    let before = names_in(list, k);
    if k < n {
        law_names_stand_in_text_order(list, k, n - 1);
        let middle = names_in(list, n - 1);
        let all = names_in(list, n);
        lemma_with_names(middle, references_in(list[n - 1]), 0);
        assert(all.take(before.len() as int) =~= all.take(middle.len() as int).take(
            before.len() as int,
        ));
    } else {
        assert(before.take(before.len() as int) =~= before);
    }
}

proof fn lemma_name_ends_at(s: Seq<char>, i: int, end: int)
    requires
        0 <= i <= end <= s.len(),
        forall|k: int| i <= k < end ==> is_name_char(#[trigger] s[k]),
        end < s.len() ==> !is_name_char(s[end]),
    ensures
        name_end(s, i) == end,
    decreases end - i,
{
    if i < end {
        lemma_name_ends_at(s, i + 1, end);
    }
}

/// A reference to an upload becomes the URI of that upload, with the text
/// around it kept.
pub proof fn law_a_reference_becomes_its_uri(
    before: Seq<char>,
    name: Seq<char>,
    after: Seq<char>,
    uris: Seq<DataUriModel>,
    uri: Seq<char>,
)
    requires
        text::find(before + "/"@, "uploads/"@) is None,
        name.len() > 0,
        forall|k: int| 0 <= k < name.len() ==> is_name_char(#[trigger] name[k]),
        after.len() > 0 ==> !is_name_char(after[0]),
        text::find(after, "uploads/"@) is None,
        uri_for(uris, name, 0) == Some(uri),
    ensures
        replaced(before + "/uploads/"@ + name + after, uris) == before + uri + after,
{
    reveal_strlit("/");
    reveal_strlit("uploads/");
    reveal_strlit("/uploads/");
    let s = before + "/uploads/"@ + name + after;
    let start = before.len() as int;
    let at = start + 1;
    let from = at + 8;
    let end = from + name.len();
    assert(s.subrange(at, at + 8) =~= "uploads/"@);
    assert(text::stands_at(s, "uploads/"@, at));
    assert forall|j: int| 0 <= j < at implies !#[trigger] text::stands_at(s, "uploads/"@, j) by {
        if text::stands_at(s, "uploads/"@, j) {
            let found = s.subrange(j, j + 8);
            if j + 8 <= at {
                assert((before + "/"@).subrange(j, j + 8) =~= found);
                assert(text::stands_at(before + "/"@, "uploads/"@, j));
                text::lemma_find_from(before + "/"@, "uploads/"@, 0);
            } else {
                assert(found[start - j] == s[start]);
                assert(s[start] == '/');
            }
        }
    }
    text::lemma_find_from(s, "uploads/"@, 0);
    assert(text::find_from(s, "uploads/"@, 0) == Some(at));
    assert forall|k: int| from <= k < end implies is_name_char(#[trigger] s[k]) by {
        assert(s[k] == name[k - from]);
    }
    if end < s.len() {
        assert(s[end] == after[0]);
    }
    lemma_name_ends_at(s, from, end);
    assert(s.subrange(from, end) =~= name);
    assert forall|j: int| end <= j implies !#[trigger] text::stands_at(s, "uploads/"@, j) by {
        if text::stands_at(s, "uploads/"@, j) {
            let k = j - end;
            assert(after.subrange(k, k + 8) =~= s.subrange(j, j + 8));
            assert(text::stands_at(after, "uploads/"@, k));
            text::lemma_find_from(after, "uploads/"@, 0);
        }
    }
    text::lemma_find_from(s, "uploads/"@, end);
    assert(references_from(s, end) =~= Seq::<ReferenceModel>::empty());
    assert(s[at - 1] == '/');
    let reference = ReferenceModel { start, name, end };
    assert(references_in(s) =~= seq![reference]);
    reveal_with_fuel(replaced_from, 2);
    assert(s.subrange(0, start) =~= before);
    assert(s.subrange(end, s.len() as int) =~= after);
    assert(replaced_from(s, seq![reference], uris, 1, end) == after);
}

/// Both texts of every unit are searched: its HTML, and its CSS when it has
/// one.
pub proof fn law_every_text_of_a_unit_is_searched(units: Seq<UnitModel>, k: int)
    requires
        0 <= k < units.len(),
    ensures
        unit_texts(units).contains(units[k].html),
        units[k].css matches Some(css) ==> unit_texts(units).contains(css),
    decreases units.len(),
{
    let rest = units.drop_last();
    let before = unit_texts(rest);
    let all = unit_texts(units);
    if k == units.len() - 1 {
        assert(all[before.len() as int] == units[k].html);
        if let Some(css) = units[k].css {
            assert(all[before.len() as int + 1] == css);
        }
    } else {
        assert(rest[k] == units[k]);
        law_every_text_of_a_unit_is_searched(rest, k);
        let at = choose|at: int| 0 <= at < before.len() && before[at] == units[k].html;
        assert(all[at] == units[k].html);
        if let Some(css) = units[k].css {
            let place = choose|place: int| 0 <= place < before.len() && before[place] == css;
            assert(all[place] == css);
        }
    }
}

} // verus!
