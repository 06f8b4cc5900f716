//! The user's source files in a request to the model.

use vstd::prelude::*;

use crate::export;
use crate::export::data_uri;
use crate::text;
use crate::text::{
    begins_with, chars_of, decimal_of, joined_strings, owned, part, push_chars,
};

verus! {

/// One upload attached to a model request.
#[derive(Debug, PartialEq, Eq)]
pub struct UploadAttachment {
    /// Stored upload name, as in `/uploads/{name}`.
    pub name: String,
    /// Content type from the extension.
    pub content_type: String,
    /// File bytes.
    pub bytes: Vec<u8>,
}

/// The uploads a request carries, plus the ones the size caps left out.
#[derive(Debug, PartialEq, Eq)]
pub struct Attachments {
    /// Files sent as content parts, in listing order.
    pub files: Vec<UploadAttachment>,
    /// `name (size)` of every file skipped over the caps.
    pub skipped: Vec<String>,
}

/// Largest single upload attached to a request.
pub const ATTACHMENT_FILE_LIMIT_BYTES: usize = 20971520;

/// Largest total of uploads attached to one request.
pub const ATTACHMENT_TOTAL_LIMIT_BYTES: usize = 33554432;

/// Longest text file inlined into a request; the rest is cut with a note.
pub const ATTACHMENT_TEXT_LIMIT_BYTES: usize = 102400;

/// Most text inlined into one request over every file. A codebase of source
/// files adds up to more than a context window holds, so once the budget is
/// spent the remaining text files are named only.
pub const ATTACHMENT_TEXT_TOTAL_LIMIT_BYTES: usize = 262144;

// -- Sizes ------------------------------------------------------------------

/// `bytes` in tenths of a unit of `unit` bytes, rounded to the nearest, a tie
/// to the even tenth.
pub open spec fn tenths(bytes: int, unit: int) -> int {
    let whole = bytes * 10 / unit;
    let rest = bytes * 10 % unit;
    if 2 * rest > unit || (2 * rest == unit && whole % 2 == 1) {
        whole + 1
    } else {
        whole
    }
}

/// A number of tenths, with one decimal.
pub open spec fn one_decimal(n: nat) -> Seq<char> {
    text::decimal(n / 10) + "."@ + text::decimal(n % 10)
}

/// A short human size: `512 B`, `3.4 KB`, `1.2 MB`.
pub open spec fn size_text(bytes: nat) -> Seq<char> {
    if bytes < 1024 {
        text::decimal(bytes) + " B"@
    } else if bytes < 1048576 {
        one_decimal(tenths(bytes as int, 1024) as nat) + " KB"@
    } else {
        one_decimal(tenths(bytes as int, 1048576) as nat) + " MB"@
    }
}

fn round_to_tenths(bytes: usize, unit: u128) -> (r: u128)
    requires
        1 <= unit <= 1048576,
    ensures
        r == tenths(bytes as int, unit as int),
{
    let scaled: u128 = bytes as u128 * 10;
    let whole: u128 = scaled / unit;
    let rest: u128 = scaled % unit;
    assert(whole <= scaled) by (nonlinear_arith)
        requires
            whole == scaled / unit,
            1 <= unit,
    ;
    if 2 * rest > unit || (2 * rest == unit && whole % 2 == 1) {
        whole + 1
    } else {
        whole
    }
}

fn decimal_tenths(n: u128) -> (r: String)
    ensures
        r@ == one_decimal(n as nat),
{
    let mut r = decimal_of(n / 10);
    r.append(".");
    r.append(decimal_of(n % 10).as_str());
    r
}

/// A short human size: `512 B`, `3.4 KB`, `1.2 MB`.
pub fn describe_size(bytes: usize) -> (r: String)
    ensures
        r@ == size_text(bytes as nat),
{
    if bytes < 1024 {
        let mut r = decimal_of(bytes as u128);
        r.append(" B");
        r
    } else if bytes < 1048576 {
        let mut r = decimal_tenths(round_to_tenths(bytes, 1024));
        r.append(" KB");
        r
    } else {
        let mut r = decimal_tenths(round_to_tenths(bytes, 1048576));
        r.append(" MB");
        r
    }
}

// -- Choosing ---------------------------------------------------------------

/// The files gathered for a request so far.
#[derive(Debug)]
pub struct AttachmentLoader {
    total: u128,
    attachments: Attachments,
}

impl AttachmentLoader {
    /// The bytes gathered so far.
    pub closed spec fn gathered(&self) -> int {
        self.total as int
    }

    /// The files gathered so far.
    pub closed spec fn files(&self) -> Seq<UploadAttachment> {
        self.attachments.files@
    }

    /// The names left out so far.
    pub closed spec fn left_out(&self) -> Seq<Seq<char>> {
        text::strings(self.attachments.skipped@)
    }

    /// A loader that has gathered nothing.
    pub fn new() -> (r: AttachmentLoader)
        ensures
            r.gathered() == 0,
            r.files().len() == 0,
            r.left_out().len() == 0,
    {
        AttachmentLoader {
            total: 0,
            attachments: Attachments { files: Vec::new(), skipped: Vec::new() },
        }
    }

    /// True when a file of this size still fits under the caps.
    pub fn fits(&self, size: usize) -> (r: bool)
        ensures
            r == (size <= ATTACHMENT_FILE_LIMIT_BYTES && self.gathered() + size
                <= ATTACHMENT_TOTAL_LIMIT_BYTES),
    {
        size <= ATTACHMENT_FILE_LIMIT_BYTES && self.total <= ATTACHMENT_TOTAL_LIMIT_BYTES as u128
            && size as u128 <= ATTACHMENT_TOTAL_LIMIT_BYTES as u128 - self.total
    }

    /// Leaves a file out, by its name and its size.
    pub fn skip(&mut self, name: &str, size: usize)
        ensures
            final(self).left_out() == old(self).left_out().push(
                name@ + " ("@ + size_text(size as nat) + ")"@,
            ),
            final(self).files() == old(self).files(),
            final(self).gathered() == old(self).gathered(),
    {
        let ghost before = text::strings(self.attachments.skipped@);
        let mut line = owned(name);
        line.append(" (");
        line.append(describe_size(size).as_str());
        line.append(")");
        let ghost new = line@;
        self.attachments.skipped.push(line);
        assert(text::strings(self.attachments.skipped@) =~= before.push(new));
    }

    /// Takes a file that was read.
    pub fn take(&mut self, file: UploadAttachment)
        requires
            old(self).gathered() + file.bytes@.len() <= u128::MAX,
        ensures
            final(self).files() == old(self).files().push(file),
            final(self).left_out() == old(self).left_out(),
            final(self).gathered() == old(self).gathered() + file.bytes@.len(),
    {
        self.total = self.total + file.bytes.len() as u128;
        self.attachments.files.push(file);
    }

    /// What was gathered.
    pub fn finish(self) -> (r: Attachments)
        ensures
            r.files@ == self.files(),
            text::strings(r.skipped@) == self.left_out(),
    {
        self.attachments
    }
}

// -- Reading bytes ----------------------------------------------------------

/// Calls `std::str::from_utf8`: the bytes as text when they are valid UTF-8,
/// and an error when they are not.
#[verifier::external_body]
pub(crate) fn utf8_text(bytes: &[u8]) -> (r: Option<String>)
    ensures
        match r {
            Some(text) => vstd::utf8::valid_utf8(bytes@) && text@ == vstd::utf8::decode_utf8(
                bytes@,
            ),
            None => !vstd::utf8::valid_utf8(bytes@),
        },
{
    std::str::from_utf8(bytes).ok().map(str::to_owned)
}

/// What `String::from_utf8_lossy` makes of bytes.
pub uninterp spec fn lossy(bytes: Seq<u8>) -> Seq<char>;

/// Calls `String::from_utf8_lossy`: valid UTF-8 as it is; any other bytes
/// with replacement characters for what is invalid, which depends on the
/// bytes alone and is named by `lossy`.
#[verifier::external_body]
fn lossy_text(bytes: &[u8]) -> (r: String)
    ensures
        r@ == lossy(bytes@),
        vstd::utf8::valid_utf8(bytes@) ==> r@ == vstd::utf8::decode_utf8(bytes@),
{
    String::from_utf8_lossy(bytes).into_owned()
}

/// The text that the bytes of a source file, a configuration file, or a log
/// hold: valid UTF-8 with no NUL byte.
pub open spec fn plain_text(bytes: Seq<u8>) -> Option<Seq<char>> {
    if !bytes.contains(0) && vstd::utf8::valid_utf8(bytes) {
        Some(vstd::utf8::decode_utf8(bytes))
    } else {
        None
    }
}

fn holds_nul(bytes: &[u8]) -> (r: bool)
    ensures
        r == bytes@.contains(0),
{
    let mut i: usize = 0;
    while i < bytes.len()
        invariant
            i <= bytes@.len(),
            forall|j: int| 0 <= j < i ==> bytes@[j] != 0,
        decreases bytes@.len() - i,
    {
        if bytes[i] == 0 {
            return true;
        }
        i += 1;
    }
    false
}

/// The bytes as text when they are valid UTF-8 with no NUL byte. A binary
/// file fails one of the two checks in its first bytes.
pub fn text_of(bytes: &[u8]) -> (r: Option<String>)
    ensures
        match r {
            Some(text) => plain_text(bytes@) == Some(text@),
            None => plain_text(bytes@) is None,
        },
{
    if holds_nul(bytes) {
        return None;
    }
    utf8_text(bytes)
}

// -- Cutting text -----------------------------------------------------------

/// How many bytes a character takes in UTF-8.
pub open spec fn char_size(c: char) -> int {
    if (c as u32) < 0x80 {
        1
    } else if (c as u32) < 0x800 {
        2
    } else if (c as u32) < 0x10000 {
        3
    } else {
        4
    }
}

/// How many bytes a text takes in UTF-8.
pub open spec fn text_size(s: Seq<char>) -> int
    decreases s.len(),
{
    if s.len() == 0 {
        0
    } else {
        text_size(s.drop_last()) + char_size(s.last())
    }
}

/// The size of a text is the length of its UTF-8 form.
pub proof fn law_text_size_is_the_encoded_length(s: Seq<char>)
    ensures
        text_size(s) == vstd::utf8::encode_utf8(s).len(),
    decreases s.len(),
{
    if s.len() > 0 {
        law_text_size_is_the_encoded_length(s.drop_last());
        lemma_encoded_push(s.drop_last(), s.last());
        assert(s =~= s.drop_last().push(s.last()));
    }
}

proof fn lemma_encoded_push(s: Seq<char>, c: char)
    ensures
        vstd::utf8::encode_utf8(s.push(c)).len() == vstd::utf8::encode_utf8(s).len() + char_size(c),
    decreases s.len(),
{
    let all = s.push(c);
    if s.len() == 0 {
        assert(all.drop_first() =~= Seq::<char>::empty());
        assert(all[0] == c);
        reveal_with_fuel(vstd::utf8::encode_utf8, 2);
    } else {
        assert(all.drop_first() =~= s.drop_first().push(c));
        lemma_encoded_push(s.drop_first(), c);
    }
}

/// How many characters from the start of `s` take at most `limit` bytes.
pub open spec fn fitting(s: Seq<char>, limit: int, n: int) -> int
    decreases s.len() - n,
{
    if 0 <= n < s.len() && text_size(s.take(n + 1)) <= limit {
        fitting(s, limit, n + 1)
    } else {
        n
    }
}

fn size_of(c: char) -> (r: usize)
    ensures
        r == char_size(c),
        1 <= r <= 4,
{
    let n: u32 = c as u32;
    if n < 0x80 {
        1
    } else if n < 0x800 {
        2
    } else if n < 0x10000 {
        3
    } else {
        4
    }
}

/// The characters that fit into `limit` bytes, and the bytes they take.
fn fit(chars: &[char], limit: usize) -> (r: (usize, usize))
    ensures
        r.0 == fitting(chars@, limit as int, 0),
        r.0 <= chars@.len(),
        r.1 == text_size(chars@.take(r.0 as int)),
        r.1 <= limit,
{
    let mut n: usize = 0;
    let mut size: usize = 0;
    assert(text_size(chars@.take(0)) == 0);
    while n < chars.len()
        invariant
            n <= chars@.len(),
            size == text_size(chars@.take(n as int)),
            size <= limit,
            fitting(chars@, limit as int, 0) == fitting(chars@, limit as int, n as int),
        decreases chars@.len() - n,
    {
        let step: usize = size_of(chars[n]);
        proof {
            let next = chars@.take(n + 1);
            assert(next.drop_last() =~= chars@.take(n as int));
            assert(next.last() == chars@[n as int]);
        }
        if step > limit - size {
            return (n, size);
        }
        size += step;
        n += 1;
    }
    (n, size)
}

/// A text that fits is not cut.
pub proof fn law_a_fitting_text_is_whole(s: Seq<char>, limit: int, n: int)
    requires
        0 <= n <= s.len(),
        text_size(s) <= limit,
    ensures
        fitting(s, limit, n) == s.len(),
    decreases s.len() - n,
{
    if n < s.len() {
        lemma_size_grows(s, n + 1);
        law_a_fitting_text_is_whole(s, limit, n + 1);
    }
}

proof fn lemma_size_grows(s: Seq<char>, n: int)
    requires
        0 <= n <= s.len(),
    ensures
        0 <= text_size(s.take(n)) <= text_size(s),
    decreases s.len() - n,
{
    if n < s.len() {
        lemma_size_grows(s, n + 1);
        assert(s.take(n + 1).drop_last() =~= s.take(n));
        lemma_size_is_not_negative(s.take(n));
    } else {
        assert(s.take(n) =~= s);
        lemma_size_is_not_negative(s);
    }
}

proof fn lemma_size_is_not_negative(s: Seq<char>)
    ensures
        0 <= text_size(s),
    decreases s.len(),
{
    if s.len() > 0 {
        lemma_size_is_not_negative(s.drop_last());
    }
}

// -- Content parts ----------------------------------------------------------

/// One part of a message.
#[derive(Debug, PartialEq, Eq)]
pub enum Part {
    Text(String),
    /// An image, by its URL.
    Image(String),
    /// A file, by its name and its `data:` URI.
    File(String, String),
}

/// One part of a message, as a mathematical value.
pub enum PartModel {
    Text(Seq<char>),
    Image(Seq<char>),
    File(Seq<char>, Seq<char>),
}

impl View for Part {
    type V = PartModel;

    open spec fn view(&self) -> PartModel {
        match self {
            Part::Text(text) => PartModel::Text(text@),
            Part::Image(url) => PartModel::Image(url@),
            Part::File(name, data) => PartModel::File(name@, data@),
        }
    }
}

/// The parts of a message.
pub open spec fn parts_of(parts: Seq<Part>) -> Seq<PartModel> {
    parts.map_values(|part: Part| part@)
}

/// The content of a message: one text, or parts.
#[derive(Debug, PartialEq, Eq)]
pub enum Content {
    Plain(String),
    Parts(Vec<Part>),
}

/// What reading a file as an Office file gives.
#[derive(Debug, PartialEq, Eq)]
pub enum OfficeReading {
    /// The content type is not an Office type.
    NotOffice,
    /// The text of the file.
    Text(String),
    /// The file could not be read, and why.
    Unreadable(String),
}

/// What a message says of a file.
pub open spec fn label(file: UploadAttachment, detail: Seq<char>) -> Seq<char> {
    "File "@ + file.name@ + " ("@ + file.content_type@ + ", "@ + size_text(
        file.bytes@.len(),
    ) + ")"@ + detail
}

fn label_of(file: &UploadAttachment, detail: &str) -> (r: Part)
    ensures
        r@ == PartModel::Text(label(*file, detail@)),
{
    let mut r = owned("File ");
    r.append(file.name.as_str());
    r.append(" (");
    r.append(file.content_type.as_str());
    r.append(", ");
    r.append(describe_size(file.bytes.len()).as_str());
    r.append(")");
    r.append(detail);
    Part::Text(r)
}

/// How many bytes of a file's text may be inlined.
pub open spec fn inline_limit(budget: int) -> int {
    if budget < ATTACHMENT_TEXT_LIMIT_BYTES {
        budget
    } else {
        ATTACHMENT_TEXT_LIMIT_BYTES as int
    }
}

/// What of a file's text is shown.
pub open spec fn shown_text(s: Seq<char>, budget: int) -> Seq<char> {
    s.take(fitting(s, inline_limit(budget), 0))
}

/// What a message holds of a text file.
pub open spec fn inlined(file: UploadAttachment, s: Seq<char>, budget: int) -> PartModel {
    if budget == 0 {
        PartModel::Text(label(file, ": named only, the request has no room for its text."@))
    } else if text_size(s) > inline_limit(budget) {
        PartModel::Text(
            label(file, ":\n"@ + shown_text(s, budget) + "\n[cut: the file continues]"@),
        )
    } else {
        PartModel::Text(label(file, ":\n"@ + s))
    }
}

/// What is left of the budget behind a text file.
pub open spec fn budget_behind(s: Seq<char>, budget: int) -> int {
    if budget == 0 {
        0
    } else {
        budget - text_size(shown_text(s, budget))
    }
}

/// One text part with the file's text inlined, cut at
/// `ATTACHMENT_TEXT_LIMIT_BYTES` or at what is left of `budget`, on a
/// character boundary. With no budget left the file is named only.
pub fn inlined_text_part(file: &UploadAttachment, text: &str, budget: &mut usize) -> (r: Part)
    ensures
        r@ == inlined(*file, text@, *old(budget) as int),
        *final(budget) == budget_behind(text@, *old(budget) as int),
        *final(budget) <= *old(budget),
{
    if *budget == 0 {
        return label_of(file, ": named only, the request has no room for its text.");
    }
    let limit: usize = if *budget < ATTACHMENT_TEXT_LIMIT_BYTES {
        *budget
    } else {
        ATTACHMENT_TEXT_LIMIT_BYTES
    };
    let chars = chars_of(text);
    let (count, size) = fit(&chars, limit);
    let mut detail = owned(":\n");
    proof {
        if text_size(chars@) <= limit {
            law_a_fitting_text_is_whole(chars@, limit as int, 0);
        }
        assert(chars@.take(chars@.len() as int) =~= chars@);
        assert(chars@.subrange(0, count as int) =~= chars@.take(count as int));
        lemma_size_is_not_negative(chars@.take(count as int));
    }
    if count < chars.len() {
        proof {
            if text_size(chars@) <= limit {
                assert(false);
            }
        }
        push_chars(&mut detail, &part(&chars, 0, count));
        detail.append("\n[cut: the file continues]");
    } else {
        detail.append(text);
    }
    *budget = *budget - size;
    label_of(file, detail.as_str())
}

/// True for an image.
pub open spec fn is_image(content_type: Seq<char>) -> bool {
    text::starts_with(content_type, "image/"@)
}

/// True for a PDF file.
pub open spec fn is_pdf(content_type: Seq<char>) -> bool {
    content_type == "application/pdf"@
}

/// True for a type that is text by its name.
pub open spec fn is_text_type(content_type: Seq<char>) -> bool {
    text::starts_with(content_type, "text/"@) || content_type == "application/json"@
}

/// The text of a file that reaches the message as text.
pub open spec fn readable(file: UploadAttachment, reading: OfficeReading) -> Option<Seq<char>> {
    if is_image(file.content_type@) || is_pdf(file.content_type@) {
        None
    } else if is_text_type(file.content_type@) {
        Some(lossy(file.bytes@))
    } else {
        match reading {
            OfficeReading::Text(text) => Some(text@),
            OfficeReading::Unreadable(_) => None,
            OfficeReading::NotOffice => plain_text(file.bytes@),
        }
    }
}

/// The parts for one attached file.
pub open spec fn file_parts(
    file: UploadAttachment,
    reading: OfficeReading,
    can_see_images: bool,
    budget: int,
) -> Seq<PartModel> {
    if is_image(file.content_type@) {
        if can_see_images {
            seq![
                PartModel::Text(label(file, ":"@)),
                PartModel::Image(export::data_uri_of(file.content_type@, file.bytes@)),
            ]
        } else {
            seq![
                PartModel::Text(
                    label(
                        file,
                        ": an image this model cannot see here. Use it as <img src='/uploads/"@
                            + file.name@ + "'> when it fits."@,
                    ),
                ),
            ]
        }
    } else if is_pdf(file.content_type@) {
        seq![
            PartModel::Text(label(file, ":"@)),
            PartModel::File(
                file.name@,
                export::data_uri_of("application/pdf"@, file.bytes@),
            ),
        ]
    } else {
        match readable(file, reading) {
            Some(text) => seq![inlined(file, text, budget)],
            None => match reading {
                OfficeReading::Unreadable(error) => seq![
                    PartModel::Text(
                        label(
                            file,
                            ": the file could not be read ("@ + error@
                                + "). Tell the user if you need its content."@,
                        ),
                    ),
                ],
                _ => seq![
                    PartModel::Text(
                        label(
                            file,
                            ": a file this request cannot carry. Tell the user if you need its content."@,
                        ),
                    ),
                ],
            },
        }
    }
}

/// What is left of the budget behind a file.
pub open spec fn budget_after(
    file: UploadAttachment,
    reading: OfficeReading,
    budget: int,
) -> int {
    match readable(file, reading) {
        Some(text) => budget_behind(text, budget),
        None => budget,
    }
}

fn one(part: Part) -> (r: Vec<Part>)
    ensures
        parts_of(r@) == seq![part@],
{
    let mut r: Vec<Part> = Vec::new();
    let ghost view = part@;
    r.push(part);
    assert(parts_of(r@) =~= seq![view]);
    r
}

fn two(first: Part, second: Part) -> (r: Vec<Part>)
    ensures
        parts_of(r@) == seq![first@, second@],
{
    let mut r: Vec<Part> = Vec::new();
    let ghost views = seq![first@, second@];
    r.push(first);
    r.push(second);
    assert(parts_of(r@) =~= views);
    r
}

fn image_parts(file: &UploadAttachment, can_see_images: bool) -> (r: Vec<Part>)
    requires
        is_image(file.content_type@),
    ensures
        parts_of(r@) == file_parts(*file, OfficeReading::NotOffice, can_see_images, 0),
{
    if can_see_images {
        return two(
            label_of(file, ":"),
            Part::Image(data_uri(file.content_type.as_str(), &file.bytes)),
        );
    }
    let mut detail = owned(
        ": an image this model cannot see here. Use it as <img src='/uploads/",
    );
    detail.append(file.name.as_str());
    detail.append("'> when it fits.");
    one(label_of(file, detail.as_str()))
}

/// The content parts for one attached file. `budget` is the text the request
/// may still inline; an inlined file takes its share.
pub fn attachment_parts(
    file: &UploadAttachment,
    reading: &OfficeReading,
    can_see_images: bool,
    budget: &mut usize,
) -> (r: Vec<Part>)
    ensures
        parts_of(r@) == file_parts(*file, *reading, can_see_images, *old(budget) as int),
        *final(budget) == budget_after(*file, *reading, *old(budget) as int),
        *final(budget) <= *old(budget),
{
    let kind = chars_of(file.content_type.as_str());
    if begins_with(&kind, "image/") {
        return image_parts(file, can_see_images);
    }
    if *file.content_type.as_str() == *"application/pdf" {
        return two(
            label_of(file, ":"),
            Part::File(file.name.clone(), data_uri("application/pdf", &file.bytes)),
        );
    }
    if begins_with(&kind, "text/") || *file.content_type.as_str() == *"application/json" {
        let text = lossy_text(&file.bytes);
        return one(inlined_text_part(file, text.as_str(), budget));
    }
    match reading {
        OfficeReading::Text(text) => one(inlined_text_part(file, text.as_str(), budget)),
        OfficeReading::Unreadable(error) => {
            let mut detail = owned(": the file could not be read (");
            detail.append(error.as_str());
            detail.append("). Tell the user if you need its content.");
            one(label_of(file, detail.as_str()))
        },
        OfficeReading::NotOffice => {
            // The type comes from the extension, and no table names every
            // source or configuration file. A file that reads as text is
            // text.
            if let Some(text) = text_of(&file.bytes) {
                return one(inlined_text_part(file, text.as_str(), budget));
            }
            one(
                label_of(
                    file,
                    ": a file this request cannot carry. Tell the user if you need its content.",
                ),
            )
        },
    }
}

/// True when a file reaches the message as text: a text or JSON type, an
/// Office file, or an unknown type that reads as UTF-8.
pub open spec fn is_text_file(file: UploadAttachment, reading: OfficeReading) -> bool {
    is_text_type(file.content_type@) || reading !is NotOffice || (!is_image(file.content_type@)
        && !is_pdf(file.content_type@) && plain_text(file.bytes@) is Some)
}

/// True when the file reaches the prompt as text.
pub fn is_text_attachment(file: &UploadAttachment, reading: &OfficeReading) -> (r: bool)
    ensures
        r == is_text_file(*file, *reading),
{
    let kind = chars_of(file.content_type.as_str());
    if begins_with(&kind, "text/") || *file.content_type.as_str() == *"application/json" {
        return true;
    }
    match reading {
        OfficeReading::NotOffice => !begins_with(&kind, "image/") && !(*file.content_type.as_str()
            == *"application/pdf") && text_of(&file.bytes).is_some(),
        _ => true,
    }
}

/// What is left of the budget behind the first `n` files.
pub open spec fn budget_at(
    files: Seq<UploadAttachment>,
    readings: Seq<OfficeReading>,
    n: int,
) -> int
    decreases n,
{
    if n <= 0 {
        ATTACHMENT_TEXT_TOTAL_LIMIT_BYTES as int
    } else {
        budget_after(files[n - 1], readings[n - 1], budget_at(files, readings, n - 1))
    }
}

/// The parts for the first `n` files.
pub open spec fn parts_before(
    files: Seq<UploadAttachment>,
    readings: Seq<OfficeReading>,
    can_see_images: bool,
    n: int,
) -> Seq<PartModel>
    decreases n,
{
    if n <= 0 {
        Seq::empty()
    } else {
        parts_before(files, readings, can_see_images, n - 1) + file_parts(
            files[n - 1],
            readings[n - 1],
            can_see_images,
            budget_at(files, readings, n - 1),
        )
    }
}

/// The text files among the first `n` that the budget left no room for.
pub open spec fn crowded_out(
    files: Seq<UploadAttachment>,
    readings: Seq<OfficeReading>,
    n: int,
) -> Seq<Seq<char>>
    decreases n,
{
    if n <= 0 {
        Seq::empty()
    } else if budget_at(files, readings, n - 1) == 0 && is_text_file(
        files[n - 1],
        readings[n - 1],
    ) {
        crowded_out(files, readings, n - 1).push(files[n - 1].name@)
    } else {
        crowded_out(files, readings, n - 1)
    }
}

/// What a message says before the files.
pub const FILES_FOLLOW: &'static str = "\
The user's source files follow. Use their content for the design. \
Use an image file as <img src='/uploads/{name}'>.";

/// What a message says of the files it has no room for.
pub open spec fn no_room(names: Seq<Seq<char>>) -> Seq<PartModel> {
    if names.len() == 0 {
        Seq::empty()
    } else {
        seq![
            PartModel::Text(
                "Named only, the request has no room for more text: "@ + text::join(names, ", "@)
                    + ". Ask the user for the part you need."@,
            ),
        ]
    }
}

/// What a message says of the files over the size caps.
pub open spec fn over_the_cap(names: Seq<Seq<char>>) -> Seq<PartModel> {
    if names.len() == 0 {
        Seq::empty()
    } else {
        seq![
            PartModel::Text("Not attached, over the size cap: "@ + text::join(names, ", "@) + "."@),
        ]
    }
}

/// The parts of a message with attachments.
pub open spec fn message_parts(
    text: Seq<char>,
    attachments: Attachments,
    readings: Seq<OfficeReading>,
    can_see_images: bool,
) -> Seq<PartModel> {
    let files = attachments.files@;
    let n = files.len() as int;
    seq![PartModel::Text(text), PartModel::Text(FILES_FOLLOW@)] + parts_before(
        files,
        readings,
        can_see_images,
        n,
    ) + no_room(crowded_out(files, readings, n)) + over_the_cap(
        text::strings(attachments.skipped@),
    )
}

fn extend(out: &mut Vec<Part>, more: Vec<Part>)
    ensures
        parts_of(final(out)@) == parts_of(old(out)@) + parts_of(more@),
{
    let ghost before = out@;
    let ghost added = more@;
    let mut rest = more;
    out.append(&mut rest);
    assert(out@ == before + added);
    assert(parts_of(out@) =~= parts_of(before) + parts_of(added));
}

fn listed(start: &str, names: &[String], end: &str) -> (r: Vec<Part>)
    ensures
        parts_of(r@) == if names@.len() == 0 {
            Seq::empty()
        } else {
            seq![PartModel::Text(start@ + text::join(text::strings(names@), ", "@) + end@)]
        },
{
    if names.len() == 0 {
        let r: Vec<Part> = Vec::new();
        assert(parts_of(r@) =~= Seq::<PartModel>::empty());
        return r;
    }
    let mut line = owned(start);
    line.append(joined_strings(names, ", ").as_str());
    line.append(end);
    one(Part::Text(line))
}

/// A user message content: the text alone when nothing is attached, or
/// parts: the text, then each file. Images become URLs when
/// `can_see_images`, PDFs become file parts, text files are inlined, and
/// anything else is named only. `readings` says, file by file, what reading
/// it as an Office file gives.
pub fn user_content_with_attachments(
    text: &str,
    attachments: &Attachments,
    readings: &[OfficeReading],
    can_see_images: bool,
) -> (r: Content)
    requires
        readings@.len() == attachments.files@.len(),
    ensures
        match r {
            Content::Plain(plain) => attachments.files@.len() == 0 && attachments.skipped@.len()
                == 0 && plain@ == text@,
            Content::Parts(parts) => (attachments.files@.len() > 0 || attachments.skipped@.len()
                > 0) && parts_of(parts@) == message_parts(
                text@,
                *attachments,
                readings@,
                can_see_images,
            ),
        },
{
    if attachments.files.len() == 0 && attachments.skipped.len() == 0 {
        return Content::Plain(owned(text));
    }
    let files = &attachments.files;
    let mut parts = two(Part::Text(owned(text)), Part::Text(owned(FILES_FOLLOW)));
    let ghost head = parts_of(parts@);
    let mut left_out: Vec<String> = Vec::new();
    let mut budget: usize = ATTACHMENT_TEXT_TOTAL_LIMIT_BYTES;
    let mut n: usize = 0;
    assert(text::strings(left_out@) =~= Seq::<Seq<char>>::empty());
    assert(head + parts_before(files@, readings@, can_see_images, 0) =~= head);
    while n < files.len()
        invariant
            n <= files@.len(),
            readings@.len() == files@.len(),
            budget == budget_at(files@, readings@, n as int),
            parts_of(parts@) == head + parts_before(files@, readings@, can_see_images, n as int),
            text::strings(left_out@) == crowded_out(files@, readings@, n as int),
        decreases files@.len() - n,
    {
        let before: usize = budget;
        let ghost shown = parts_before(files@, readings@, can_see_images, n as int);
        let more = attachment_parts(&files[n], &readings[n], can_see_images, &mut budget);
        let ghost new = parts_of(more@);
        extend(&mut parts, more);
        assert(head + (shown + new) =~= head + shown + new);
        if before == 0 && is_text_attachment(&files[n], &readings[n]) {
            let ghost names = text::strings(left_out@);
            left_out.push(files[n].name.clone());
            assert(text::strings(left_out@) =~= names.push(files@[n as int].name@));
        }
        n += 1;
    }
    assert(text::strings(left_out@).len() == left_out@.len());
    assert(text::strings(attachments.skipped@).len() == attachments.skipped@.len());
    extend(
        &mut parts,
        listed(
            "Named only, the request has no room for more text: ",
            &left_out,
            ". Ask the user for the part you need.",
        ),
    );
    extend(
        &mut parts,
        listed("Not attached, over the size cap: ", &attachments.skipped, "."),
    );
    Content::Parts(parts)
}

/// The parts of the first `n` images, each behind its number.
pub open spec fn image_sequence(images: Seq<Vec<u8>>, n: int) -> Seq<PartModel>
    decreases n,
{
    if n <= 0 {
        Seq::empty()
    } else {
        image_sequence(images, n - 1).push(
            PartModel::Text("Screen "@ + text::decimal(n as nat) + ":"@),
        ).push(PartModel::Image(export::data_uri_of("image/png"@, images[n - 1]@)))
    }
}

/// A user message content: the text alone, or parts with one image per PNG
/// when images are present.
pub fn user_content_with_images(text: &str, images: &[Vec<u8>]) -> (r: Content)
    ensures
        match r {
            Content::Plain(plain) => images@.len() == 0 && plain@ == text@,
            Content::Parts(parts) => images@.len() > 0 && parts_of(parts@) == seq![
                PartModel::Text(text@),
            ] + image_sequence(images@, images@.len() as int),
        },
{
    if images.len() == 0 {
        return Content::Plain(owned(text));
    }
    let mut parts = one(Part::Text(owned(text)));
    let ghost head = parts_of(parts@);
    let mut n: usize = 0;
    assert(head + image_sequence(images@, 0) =~= head);
    while n < images.len()
        invariant
            n <= images@.len(),
            parts_of(parts@) == head + image_sequence(images@, n as int),
        decreases images@.len() - n,
    {
        let mut number = owned("Screen ");
        number.append(decimal_of(n as u128 + 1).as_str());
        number.append(":");
        let ghost shown = image_sequence(images@, n as int);
        let label = Part::Text(number);
        let image = Part::Image(data_uri("image/png", &images[n]));
        let ghost views = seq![label@, image@];
        extend(&mut parts, two(label, image));
        assert(head + shown + views =~= head + image_sequence(images@, n + 1));
        n += 1;
    }
    Content::Parts(parts)
}

/// The text inlined into one message never takes more than the budget.
pub proof fn law_the_inlined_text_stays_within_the_budget(
    files: Seq<UploadAttachment>,
    readings: Seq<OfficeReading>,
    n: int,
)
    ensures
        0 <= budget_at(files, readings, n) <= ATTACHMENT_TEXT_TOTAL_LIMIT_BYTES,
    decreases n,
{
    if n > 0 {
        law_the_inlined_text_stays_within_the_budget(files, readings, n - 1);
        let budget = budget_at(files, readings, n - 1);
        if let Some(text) = readable(files[n - 1], readings[n - 1]) {
            lemma_shown_text_fits(text, budget);
        }
    }
}

proof fn lemma_shown_text_fits(s: Seq<char>, budget: int)
    requires
        0 <= budget,
    ensures
        0 <= text_size(shown_text(s, budget)) <= budget,
{
    lemma_fitting(s, inline_limit(budget), 0);
    assert(text_size(s.take(0)) == 0);
    lemma_size_is_not_negative(shown_text(s, budget));
}

proof fn lemma_fitting(s: Seq<char>, limit: int, n: int)
    requires
        0 <= n <= s.len(),
        text_size(s.take(n)) <= limit,
    ensures
        n <= fitting(s, limit, n) <= s.len(),
        text_size(s.take(fitting(s, limit, n))) <= limit,
    decreases s.len() - n,
{
    if n < s.len() && text_size(s.take(n + 1)) <= limit {
        lemma_fitting(s, limit, n + 1);
    }
}

// -- What reaches the message -------------------------------------------------

/// A file is always named in the message. An image that the model sees and a
/// PDF file are carried whole, and so is a text that fits.
pub proof fn law_a_file_is_named_and_carried(
    file: UploadAttachment,
    reading: OfficeReading,
    can_see_images: bool,
    budget: int,
)
    ensures
        ({
            let parts = file_parts(file, reading, can_see_images, budget);
            let content_type = file.content_type@;
            &&& parts.len() > 0
            &&& parts[0] matches PartModel::Text(told) && text::starts_with(
                told,
                "File "@ + file.name@,
            ) && (readable(file, reading) matches Some(whole) ==> budget > 0 && text_size(whole)
                <= inline_limit(budget) ==> text::ends_with(told, whole))
            &&& is_image(content_type) && can_see_images ==> parts.contains(
                PartModel::Image(export::data_uri_of(content_type, file.bytes@)),
            )
            &&& is_pdf(content_type) ==> parts.contains(
                PartModel::File(
                    file.name@,
                    export::data_uri_of("application/pdf"@, file.bytes@),
                ),
            )
        }),
{
    let parts = file_parts(file, reading, can_see_images, budget);
    let content_type = file.content_type@;
    if is_pdf(content_type) {
        reveal_strlit("application/pdf");
        reveal_strlit("image/");
        assert(!is_image(content_type)) by {
            if is_image(content_type) {
                assert(content_type.subrange(0, 6)[0] == 'i');
            }
        }
    }
    let told = parts[0]->Text_0;
    let head = "File "@ + file.name@;
    let middle = " ("@ + content_type + ", "@ + size_text(file.bytes@.len()) + ")"@;
    assert forall|detail: Seq<char>| text::starts_with(#[trigger] label(file, detail), head)
        && text::ends_with(label(file, detail), detail) by {
        let all = label(file, detail);
        assert(all =~= head + middle + detail);
        assert(all.subrange(0, head.len() as int) =~= head);
        assert(all.subrange(all.len() - detail.len(), all.len() as int) =~= detail);
    }
    if let Some(whole) = readable(file, reading) {
        if budget > 0 && text_size(whole) <= inline_limit(budget) {
            let detail = ":\n"@ + whole;
            let all = label(file, detail);
            assert(all.subrange(all.len() - detail.len(), all.len() as int) =~= detail);
            assert(all.subrange(all.len() - whole.len(), all.len() as int) =~= whole) by {
                assert(all =~= head + middle + ":\n"@ + whole);
            }
        }
    }
    if is_image(content_type) && can_see_images {
        assert(parts[1] == PartModel::Image(export::data_uri_of(content_type, file.bytes@)));
    }
    if is_pdf(content_type) {
        assert(parts[1] is File);
    }
}

/// What is shown of a text that does not fit is its longest beginning that
/// does.
pub proof fn law_the_longest_beginning_is_shown(s: Seq<char>, budget: int)
    requires
        0 <= budget,
    ensures
        ({
            let shown = shown_text(s, budget);
            let limit = inline_limit(budget);
            &&& shown.len() <= s.len()
            &&& shown == s.take(shown.len() as int)
            &&& text_size(shown) <= limit
            &&& shown.len() < s.len() ==> text_size(s.take(shown.len() as int + 1)) > limit
        }),
{
    let limit = inline_limit(budget);
    assert(s.take(0) =~= Seq::<char>::empty());
    lemma_fitting(s, limit, 0);
    lemma_next_does_not_fit(s, limit, 0);
}

proof fn lemma_next_does_not_fit(s: Seq<char>, limit: int, n: int)
    requires
        0 <= n <= s.len(),
    ensures
        fitting(s, limit, n) < s.len() ==> text_size(s.take(fitting(s, limit, n) + 1)) > limit,
    decreases s.len() - n,
{
    if n < s.len() && text_size(s.take(n + 1)) <= limit {
        lemma_next_does_not_fit(s, limit, n + 1);
    }
}

/// The files stand in listing order: what the first of them give is the
/// beginning of what more of them give, and each adds its own parts.
pub proof fn law_files_stand_in_listing_order(
    files: Seq<UploadAttachment>,
    readings: Seq<OfficeReading>,
    can_see_images: bool,
    k: int,
    n: int,
)
    requires
        0 <= k < n <= files.len(),
    ensures
        ({
            let before = parts_before(files, readings, can_see_images, k);
            let all = parts_before(files, readings, can_see_images, n);
            let own = file_parts(
                files[k],
                readings[k],
                can_see_images,
                budget_at(files, readings, k),
            );
            &&& before.len() + own.len() <= all.len()
            &&& all.take(before.len() as int) == before
            &&& all.subrange(before.len() as int, (before.len() + own.len()) as int) == own
        }),
    decreases n,
{
    let before = parts_before(files, readings, can_see_images, k);
    let all = parts_before(files, readings, can_see_images, n);
    let own = file_parts(files[k], readings[k], can_see_images, budget_at(files, readings, k));
    if k == n - 1 {
        assert(all == before + own);
        assert(all.take(before.len() as int) =~= before);
        assert(all.subrange(before.len() as int, (before.len() + own.len()) as int) =~= own);
    } else {
        law_files_stand_in_listing_order(files, readings, can_see_images, k, n - 1);
        let shorter = parts_before(files, readings, can_see_images, n - 1);
        assert(all.take(before.len() as int) =~= shorter.take(before.len() as int));
        assert(all.subrange(before.len() as int, (before.len() + own.len()) as int)
            =~= shorter.subrange(before.len() as int, (before.len() + own.len()) as int));
    }
}

/// A message with attachments begins with the user's text, holds the parts of
/// every file, and names every file that it has no room for.
pub proof fn law_a_message_tells_everything(
    text: Seq<char>,
    attachments: Attachments,
    readings: Seq<OfficeReading>,
    can_see_images: bool,
)
    ensures
        ({
            let parts = message_parts(text, attachments, readings, can_see_images);
            let files = attachments.files@;
            let given = parts_before(files, readings, can_see_images, files.len() as int);
            let behind = 2 + given.len() as int;
            let skipped = text::strings(attachments.skipped@);
            let crowded = crowded_out(files, readings, files.len() as int);
            &&& parts[0] == PartModel::Text(text)
            &&& behind <= parts.len()
            &&& parts.subrange(2, behind) == given
            &&& forall|k: int|
                #![trigger skipped[k]]
                0 <= k < skipped.len() ==> parts.last() is Text && text::holds(
                    parts.last()->Text_0,
                    skipped[k],
                )
            &&& forall|k: int|
                #![trigger crowded[k]]
                0 <= k < crowded.len() ==> behind < parts.len() && parts[behind]
                    is Text && text::holds(parts[behind]->Text_0, crowded[k])
        }),
{
    let parts = message_parts(text, attachments, readings, can_see_images);
    let files = attachments.files@;
    let given = parts_before(files, readings, can_see_images, files.len() as int);
    let behind = 2 + given.len() as int;
    let skipped = text::strings(attachments.skipped@);
    let crowded = crowded_out(files, readings, files.len() as int);
    assert(parts.subrange(2, behind) =~= given);
    assert forall|k: int| #![trigger skipped[k]] 0 <= k < skipped.len() implies parts.last() is Text
        && text::holds(parts.last()->Text_0, skipped[k]) by {
        assert(parts.last() == over_the_cap(skipped)[0]);
        text::lemma_join_holds(skipped, ", "@, k);
        text::lemma_holds_behind(
            "Not attached, over the size cap: "@,
            text::join(skipped, ", "@),
            "."@,
            skipped[k],
        );
    }
    assert forall|k: int| #![trigger crowded[k]] 0 <= k < crowded.len() implies behind
        < parts.len() && parts[behind] is Text && text::holds(
        parts[behind]->Text_0,
        crowded[k],
    ) by {
        assert(parts[behind] == no_room(crowded)[0]);
        text::lemma_join_holds(crowded, ", "@, k);
        text::lemma_holds_behind(
            "Named only, the request has no room for more text: "@,
            text::join(crowded, ", "@),
            ". Ask the user for the part you need."@,
            crowded[k],
        );
    }
}

/// Every text file that the budget left no room for is among the crowded out,
/// and no other file is.
pub proof fn law_the_crowded_out_are_told(
    files: Seq<UploadAttachment>,
    readings: Seq<OfficeReading>,
    n: int,
)
    requires
        0 <= n <= files.len(),
    ensures
        forall|k: int|
            #![trigger files[k]]
            0 <= k < n && budget_at(files, readings, k) == 0 && is_text_file(files[k], readings[k])
                ==> crowded_out(files, readings, n).contains(files[k].name@),
        forall|name: Seq<char>| #[trigger]
            crowded_out(files, readings, n).contains(name) ==> exists|k: int|
                #![trigger files[k]]
                0 <= k < n && files[k].name@ == name && budget_at(files, readings, k) == 0,
    decreases n,
{
    if n > 0 {
        law_the_crowded_out_are_told(files, readings, n - 1);
        let before = crowded_out(files, readings, n - 1);
        let all = crowded_out(files, readings, n);
        if all != before {
            assert(all == before.push(files[n - 1].name@));
            assert(all[all.len() - 1] == files[n - 1].name@);
        }
        assert forall|name: Seq<char>| before.contains(name) implies #[trigger] all.contains(
            name,
        ) by {
            let at = choose|at: int| 0 <= at < before.len() && before[at] == name;
            assert(all[at] == name);
        }
        assert forall|name: Seq<char>| #[trigger] all.contains(name) implies exists|k: int|
            #![trigger files[k]]
            0 <= k < n && files[k].name@ == name && budget_at(files, readings, k) == 0 by {
            let at = choose|at: int| 0 <= at < all.len() && all[at] == name;
            if at < before.len() {
                assert(before[at] == name);
                assert(before.contains(name));
            } else {
                assert(files[n - 1].name@ == name);
            }
        }
    }
}

/// Each image stands behind its number, in order.
pub proof fn law_each_image_stands_behind_its_number(images: Seq<Vec<u8>>, n: int, k: int)
    requires
        0 <= k < n <= images.len(),
    ensures
        image_sequence(images, n).len() == 2 * n,
        image_sequence(images, n)[2 * k] == PartModel::Text(
            "Screen "@ + text::decimal((k + 1) as nat) + ":"@,
        ),
        image_sequence(images, n)[2 * k + 1] == PartModel::Image(
            export::data_uri_of("image/png"@, images[k]@),
        ),
    decreases n,
{
    if k < n - 1 {
        law_each_image_stands_behind_its_number(images, n - 1, k);
    } else if n > 1 {
        law_each_image_stands_behind_its_number(images, n - 1, 0);
    } else {
        reveal_with_fuel(image_sequence, 2);
    }
}

/// A size is rounded to the nearest tenth of its unit.
pub proof fn law_a_size_is_rounded_to_the_nearest_tenth(bytes: int, unit: int)
    requires
        0 <= bytes,
        0 < unit,
    ensures
        -unit <= 2 * (tenths(bytes, unit) * unit - bytes * 10) <= unit,
{
    let whole = bytes * 10 / unit;
    let rest = bytes * 10 % unit;
    assert(bytes * 10 == unit * whole + rest && 0 <= rest < unit) by {
        vstd::arithmetic::div_mod::lemma_fundamental_div_mod(bytes * 10, unit);
        vstd::arithmetic::div_mod::lemma_mod_bound(bytes * 10, unit);
    }
    assert((whole + 1) * unit == unit * whole + unit) by (nonlinear_arith);
    assert(whole * unit == unit * whole) by (nonlinear_arith);
}

} // verus!
