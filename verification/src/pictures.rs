//! The pictures that a Word export reads from the uploads.

use vstd::prelude::*;

use crate::blocks;
use crate::blocks::{Block, BlockModel};
use crate::docx::Picture;
use crate::text;
use crate::text::{begins_with, chars_of, part, rfind_char, spells, text_of, to_lower};
use crate::uploads;
use crate::uploads::is_stored_name;

verus! {

/// Where the path of an upload starts.
pub const UPLOADS_PATH: &'static str = "/uploads/";

/// One picture to read: the source the blocks name it by, the upload behind
/// it, and its extension.
#[derive(Debug, PartialEq, Eq)]
pub struct PictureRequest {
    pub src: String,
    pub name: String,
    pub extension: String,
}

/// A request as a mathematical value.
pub struct PictureRequestModel {
    pub src: Seq<char>,
    pub name: Seq<char>,
    pub extension: Seq<char>,
}

impl View for PictureRequest {
    type V = PictureRequestModel;

    open spec fn view(&self) -> PictureRequestModel {
        PictureRequestModel { src: self.src@, name: self.name@, extension: self.extension@ }
    }
}

/// What a list of requests says.
pub open spec fn requests_of(requests: Seq<PictureRequest>) -> Seq<PictureRequestModel> {
    requests.map_values(|request: PictureRequest| request@)
}

/// The extension of a file name, in lower case: what stands behind the last
/// dot, or the whole name without one.
pub open spec fn extension_of(name: Seq<char>) -> Seq<char> {
    match text::rfind_char_before(name, '.', name.len() as int) {
        Some(dot) => text::lower(name.skip(dot + 1)),
        None => text::lower(name),
    }
}

/// True for an extension of an image that Word opens.
pub open spec fn is_picture(extension: Seq<char>) -> bool {
    extension == "png"@ || extension == "jpg"@ || extension == "jpeg"@ || extension == "gif"@
}

/// The picture behind an image source, when it is an upload that Word can
/// show.
pub open spec fn request_for(src: Seq<char>) -> Option<PictureRequestModel> {
    let name = src.skip(UPLOADS_PATH@.len() as int);
    if text::starts_with(src, UPLOADS_PATH@) && is_picture(extension_of(name))
        && uploads::is_upload_name(name) {
        Some(PictureRequestModel { src, name, extension: extension_of(name) })
    } else {
        None
    }
}

/// True when a request is for the source.
pub open spec fn is_requested(requests: Seq<PictureRequestModel>, src: Seq<char>) -> bool {
    exists|i: int| 0 <= i < requests.len() && (#[trigger] requests[i]).src == src
}

/// The pictures that the first `n` blocks name, once per source.
pub open spec fn requests_before(blocks: Seq<BlockModel>, n: int) -> Seq<PictureRequestModel>
    decreases n,
{
    if n <= 0 {
        Seq::empty()
    } else {
        let before = requests_before(blocks, n - 1);
        match blocks[n - 1] {
            BlockModel::Image(src) => if is_requested(before, src) {
                before
            } else {
                match request_for(src) {
                    Some(request) => before.push(request),
                    None => before,
                }
            },
            _ => before,
        }
    }
}

fn extension(name: &[char]) -> (r: Vec<char>)
    ensures
        r@ == extension_of(name@),
{
    let length: usize = name.len();
    match rfind_char(name, '.') {
        Some(dot) => {
            let tail = part(name, dot + 1, length);
            assert(tail@ =~= name@.skip(dot + 1));
            to_lower(&tail)
        },
        None => to_lower(name),
    }
}

/// The picture behind an image source, when it is an upload that Word can
/// show.
pub fn picture_request(src: &str) -> (r: Option<PictureRequest>)
    ensures
        match r {
            Some(request) => request_for(src@) == Some(request@),
            None => request_for(src@) is None,
        },
{
    let chars = chars_of(src);
    let length: usize = chars.len();
    proof {
        reveal_strlit("/uploads/");
    }
    if !begins_with(&chars, UPLOADS_PATH) {
        return None;
    }
    let name = part(&chars, 9, length);
    assert(name@ =~= src@.skip(9));
    let kind = extension(&name);
    if !(spells(&kind, "png") || spells(&kind, "jpg") || spells(&kind, "jpeg") || spells(
        &kind,
        "gif",
    )) {
        return None;
    }
    let name = text_of(&name);
    if !is_stored_name(name.as_str()) {
        return None;
    }
    Some(PictureRequest { src: text_of(&chars), name, extension: text_of(&kind) })
}

fn requested(requests: &[PictureRequest], src: &str) -> (r: bool)
    ensures
        r == is_requested(requests_of(requests@), src@),
{
    let ghost all = requests_of(requests@);
    let mut i: usize = 0;
    while i < requests.len()
        invariant
            i <= requests@.len(),
            all == requests_of(requests@),
            forall|j: int| 0 <= j < i ==> (#[trigger] all[j]).src != src@,
        decreases requests@.len() - i,
    {
        assert(all[i as int] == requests@[i as int]@);
        if *requests[i].src.as_str() == *src {
            return true;
        }
        i += 1;
    }
    false
}

/// The pictures to read for the blocks: every image that names an upload Word
/// can show, once per image.
pub fn picture_requests(blocks: &[Block]) -> (r: Vec<PictureRequest>)
    ensures
        requests_of(r@) == requests_before(blocks::blocks_of(blocks@), blocks@.len() as int),
{
    let ghost all = blocks::blocks_of(blocks@);
    let mut r: Vec<PictureRequest> = Vec::new();
    let mut n: usize = 0;
    assert(requests_of(r@) =~= Seq::<PictureRequestModel>::empty());
    while n < blocks.len()
        invariant
            n <= blocks@.len(),
            all == blocks::blocks_of(blocks@),
            requests_of(r@) == requests_before(all, n as int),
        decreases blocks@.len() - n,
    {
        assert(all[n as int] == blocks@[n as int]@);
        if let Block::Image(src) = &blocks[n] {
            if !requested(&r, src.as_str()) {
                if let Some(request) = picture_request(src.as_str()) {
                    let ghost before = requests_of(r@);
                    let ghost new = request@;
                    r.push(request);
                    assert(requests_of(r@) =~= before.push(new));
                }
            }
        }
        n += 1;
    }
    r
}

/// The picture with the bytes that were read for a request.
pub fn picture_of(request: PictureRequest, bytes: Vec<u8>) -> (r: Picture)
    ensures
        r.src == request.src,
        r.extension == request.extension,
        r.bytes == bytes,
{
    Picture { src: request.src, extension: request.extension, bytes }
}

/// No source is read twice.
pub proof fn law_each_picture_is_read_once(blocks: Seq<BlockModel>, n: int, i: int, j: int)
    requires
        0 <= i < j < requests_before(blocks, n).len(),
    ensures
        requests_before(blocks, n)[i].src != requests_before(blocks, n)[j].src,
    decreases n,
{
    if n > 0 {
        let before = requests_before(blocks, n - 1);
        if j < before.len() {
            law_each_picture_is_read_once(blocks, n - 1, i, j);
        } else {
            assert(before[i] == requests_before(blocks, n)[i]);
        }
    }
}

proof fn lemma_requests_are_right(blocks: Seq<BlockModel>, n: int)
    requires
        n <= blocks.len(),
    ensures
        forall|i: int|
            0 <= i < requests_before(blocks, n).len() ==> request_for(
                (#[trigger] requests_before(blocks, n)[i]).src,
            ) == Some(requests_before(blocks, n)[i]),
    decreases n,
{
    if n > 0 {
        lemma_requests_are_right(blocks, n - 1);
    }
}

/// Every image of the blocks that Word can show is read, and nothing else is.
pub proof fn law_every_picture_is_requested(blocks: Seq<BlockModel>, n: int)
    requires
        0 <= n <= blocks.len(),
    ensures
        forall|k: int, src: Seq<char>|
            0 <= k < n && #[trigger] blocks[k] == BlockModel::Image(src) ==> (
            #[trigger] request_for(src) matches Some(request) ==> requests_before(
                blocks,
                n,
            ).contains(request)),
        forall|request: PictureRequestModel| #[trigger]
            requests_before(blocks, n).contains(request) ==> request_for(request.src) == Some(
                request,
            ) && exists|k: int|
                0 <= k < n && #[trigger] blocks[k] == BlockModel::Image(request.src),
    decreases n,
{
    if n > 0 {
        law_every_picture_is_requested(blocks, n - 1);
        lemma_requests_are_right(blocks, n - 1);
        let before = requests_before(blocks, n - 1);
        let all = requests_before(blocks, n);
        assert forall|request: PictureRequestModel| before.contains(
            request,
        ) implies #[trigger] all.contains(request) by {
            let at = choose|at: int| 0 <= at < before.len() && before[at] == request;
            assert(all[at] == request);
        }
        if let BlockModel::Image(src) = blocks[n - 1] {
            if let Some(request) = request_for(src) {
                if is_requested(before, src) {
                    let at = choose|at: int|
                        0 <= at < before.len() && (#[trigger] before[at]).src == src;
                    assert(before[at] == request);
                    assert(all.contains(request));
                } else {
                    assert(all[all.len() - 1] == request);
                }
            }
        }
        assert forall|request: PictureRequestModel| #[trigger] all.contains(
            request,
        ) implies request_for(request.src) == Some(request) && exists|k: int|
            0 <= k < n && #[trigger] blocks[k] == BlockModel::Image(request.src) by {
            let at = choose|at: int| 0 <= at < all.len() && all[at] == request;
            if at < before.len() {
                assert(before[at] == request);
                assert(before.contains(request));
                let k = choose|k: int|
                    0 <= k < n - 1 && #[trigger] blocks[k] == BlockModel::Image(request.src);
                assert(blocks[k] == BlockModel::Image(request.src));
            } else {
                assert(blocks[n - 1] == BlockModel::Image(request.src));
            }
        }
    }
}

/// The pictures are read in the order of the blocks: what the first blocks
/// ask for is asked for first.
pub proof fn law_pictures_stand_in_block_order(blocks: Seq<BlockModel>, k: int, n: int)
    requires
        0 <= k <= n <= blocks.len(),
    ensures
        requests_before(blocks, k).len() <= requests_before(blocks, n).len(),
        requests_before(blocks, n).take(requests_before(blocks, k).len() as int)
            == requests_before(blocks, k),
    decreases n,
{
    let before = requests_before(blocks, k);
    if k < n {
        law_pictures_stand_in_block_order(blocks, k, n - 1);
        assert(requests_before(blocks, n).take(before.len() as int) =~= requests_before(
            blocks,
            n - 1,
        ).take(before.len() as int));
    } else {
        assert(before.take(before.len() as int) =~= before);
    }
}

/// A picture is asked for by its upload: the name behind the uploads path.
pub proof fn law_a_picture_is_asked_for_by_its_name(name: Seq<char>, extension: Seq<char>)
    requires
        uploads::is_upload_name(name + "."@ + extension),
        is_picture(extension),
    ensures
        request_for(UPLOADS_PATH@ + (name + "."@ + extension)) == Some(
            PictureRequestModel {
                src: UPLOADS_PATH@ + (name + "."@ + extension),
                name: name + "."@ + extension,
                extension,
            },
        ),
{
    reveal_strlit(".");
    reveal_strlit("png");
    reveal_strlit("jpg");
    reveal_strlit("jpeg");
    reveal_strlit("gif");
    let file = name + "."@ + extension;
    let src = UPLOADS_PATH@ + file;
    assert(src.skip(UPLOADS_PATH@.len() as int) =~= file);
    assert(src.subrange(0, UPLOADS_PATH@.len() as int) =~= UPLOADS_PATH@);
    let dot = name.len() as int;
    assert(file[dot] == '.');
    assert forall|k: int| dot < k < file.len() implies file[k] != '.' by {
        assert(file[k] == extension[k - dot - 1]);
    }
    lemma_last_dot(file, dot, file.len() as int);
    assert(file.skip(dot + 1) =~= extension);
    assert(text::lower(extension) =~= extension);
}

proof fn lemma_last_dot(s: Seq<char>, dot: int, end: int)
    requires
        0 <= dot < end <= s.len(),
        s[dot] == '.',
        forall|k: int| dot < k < end ==> s[k] != '.',
    ensures
        text::rfind_char_before(s, '.', end) == Some(dot),
    decreases end - dot,
{
    if dot < end - 1 {
        lemma_last_dot(s, dot, end - 1);
    }
}

} // verus!
