//! The bytes of the media of a bundle.
//!
//! A media file travels as base64 text. Decoding is left to the `base64`
//! crate; what comes out of it has a name, and the choice of the media that
//! decode is stated and proved over that name.

use vstd::prelude::*;
use base64::engine::general_purpose;
use base64::Engine;
use crate::markup::pair_views;

verus! {

/// The bytes that the standard base64 alphabet with padding makes of a text;
/// `None` where the text is not valid base64.
pub uninterp spec fn base64_decoded(text: Seq<char>) -> Option<Seq<u8>>;

/// Calls `Engine::decode` of the `base64` crate on its engine
/// `general_purpose::STANDARD`. The contract claims that the call returns for
/// every text and that what it returns depends on the text alone.
#[verifier::external_body]
fn decode_standard(text: &str) -> (res: Option<Vec<u8>>)
    ensures
        match res {
            Some(bytes) => base64_decoded(text@) == Some(bytes@),
            None => base64_decoded(text@).is_none(),
        },
{
    general_purpose::STANDARD.decode(text).ok()
}

/// The views of the decoded media, in order.
pub open spec fn byte_views(v: Seq<(String, Vec<u8>)>) -> Seq<(Seq<char>, Seq<u8>)> {
    Seq::new(v.len(), |i: int| (v[i].0@, v[i].1@))
}

/// The list with the media added, if it has bytes.
pub open spec fn kept(
    list: Seq<(Seq<char>, Seq<u8>)>,
    media_id: Seq<char>,
    bytes: Option<Seq<u8>>,
) -> Seq<(Seq<char>, Seq<u8>)> {
    match bytes {
        Some(b) => list.push((media_id, b)),
        None => list,
    }
}

/// The media whose content is valid base64, in order, each with its bytes.
pub open spec fn decoded_all(media: Seq<(Seq<char>, Seq<char>)>) -> Seq<(Seq<char>, Seq<u8>)>
    decreases media.len(),
{
    if media.len() == 0 {
        Seq::empty()
    } else {
        kept(decoded_all(media.drop_last()), media.last().0, base64_decoded(media.last().1))
    }
}

/// Adds a media to the list if its content could be decoded.
pub fn keep_decoded(list: &mut Vec<(String, Vec<u8>)>, media_id: String, bytes: Option<Vec<u8>>)
    ensures
        byte_views(final(list)@) == kept(
            byte_views(old(list)@),
            media_id@,
            match bytes {
                Some(b) => Some(b@),
                None => None,
            },
        ),
{
    let ghost before = byte_views(list@);
    match bytes {
        Some(b) => {
            let ghost view = b@;
            list.push((media_id, b));
            assert(byte_views(list@) =~= before.push((media_id@, view)));
        },
        None => {},
    }
}

/// The media of a bundle whose content is valid base64, each with its bytes.
pub fn decoded_media(media_content: &Vec<(String, String)>) -> (res: Vec<(String, Vec<u8>)>)
    ensures
        byte_views(res@) == decoded_all(pair_views(media_content@)),
{
    let mut res: Vec<(String, Vec<u8>)> = Vec::new();
    let ghost media = pair_views(media_content@);
    let mut i: usize = 0;
    proof {
        assert(media.take(0) =~= Seq::<(Seq<char>, Seq<char>)>::empty());
        assert(byte_views(res@) =~= Seq::<(Seq<char>, Seq<u8>)>::empty());
    }
    while i < media_content.len()
        invariant
            i <= media_content@.len(),
            media == pair_views(media_content@),
            byte_views(res@) == decoded_all(media.take(i as int)),
        decreases media_content@.len() - i,
    {
        proof {
            assert(media.take(i + 1).drop_last() =~= media.take(i as int));
            assert(media.take(i + 1).last() == media[i as int]);
        }
        let bytes = decode_standard(media_content[i].1.as_str());
        keep_decoded(&mut res, media_content[i].0.clone(), bytes);
        i = i + 1;
    }
    proof {
        assert(media.take(media.len() as int) =~= media);
    }
    res
}

} // verus!
