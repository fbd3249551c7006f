//! The byte form of a message, as it is cut into fragments.
//!
//! A message is written as its session (8 bytes, most significant first), its
//! source, its destination, one byte that tells the kind of content, and the
//! content. A number is written in 8 bytes, a text as the number of its UTF-8
//! bytes followed by those bytes, a list of texts one text after the other.

use vstd::prelude::*;
use vstd::utf8::{
    decode_utf8, encode_utf8, encode_utf8_decode_utf8, encode_utf8_valid_utf8, valid_utf8,
};
use crate::markup::texts;
use crate::message::{
    ClientMessage, ClientMessageView, Message, MessageContent, MessageContentView, MessageView,
    ServerMessage, ServerMessageView, ServerType,
};

verus! {

/// The eight bytes of a number, most significant first.
#[verifier::opaque]
pub open spec fn enc_u64(x: u64) -> Seq<u8> {
    seq![
        (x / 0x100_0000_0000_0000) as u8,
        ((x / 0x1_0000_0000_0000) % 256) as u8,
        ((x / 0x100_0000_0000) % 256) as u8,
        ((x / 0x1_0000_0000) % 256) as u8,
        ((x / 0x100_0000) % 256) as u8,
        ((x / 0x1_0000) % 256) as u8,
        ((x / 0x100) % 256) as u8,
        (x % 256) as u8,
    ]
}

/// The number that eight bytes stand for.
#[verifier::opaque]
pub open spec fn dec_u64(b: Seq<u8>) -> u64 {
    (b[0] as int * 0x100_0000_0000_0000 + b[1] as int * 0x1_0000_0000_0000 + b[2] as int
        * 0x100_0000_0000 + b[3] as int * 0x1_0000_0000 + b[4] as int * 0x100_0000 + b[5] as int
        * 0x1_0000 + b[6] as int * 0x100 + b[7] as int) as u64
}

pub open spec fn enc_str(s: Seq<char>) -> Seq<u8> {
    enc_u64(encode_utf8(s).len() as u64) + encode_utf8(s)
}

pub open spec fn enc_strs(list: Seq<Seq<char>>) -> Seq<u8>
    decreases list.len(),
{
    if list.len() == 0 {
        Seq::empty()
    } else {
        enc_str(list[0]) + enc_strs(list.drop_first())
    }
}

pub open spec fn kind_byte(kind: ServerType) -> u8 {
    match kind {
        ServerType::Chat => 0,
        ServerType::Text => 1,
        ServerType::Media => 2,
    }
}

pub open spec fn byte_kind(b: u8) -> ServerType {
    if b == 0 {
        ServerType::Chat
    } else if b == 1 {
        ServerType::Text
    } else {
        ServerType::Media
    }
}

pub open spec fn enc_content(c: MessageContentView) -> Seq<u8> {
    match c {
        MessageContentView::FromClient(ClientMessageView::GetServerType) => seq![0u8],
        MessageContentView::FromClient(ClientMessageView::GetFilesList) => seq![1u8],
        MessageContentView::FromClient(ClientMessageView::GetFile(id)) => seq![2u8] + enc_str(id),
        MessageContentView::FromClient(ClientMessageView::GetMedia(id)) => seq![3u8] + enc_str(id),
        MessageContentView::FromServer(ServerMessageView::ServerType(kind)) => seq![
            4u8,
            kind_byte(kind),
        ],
        MessageContentView::FromServer(ServerMessageView::FilesList(ids)) => seq![5u8] + (enc_u64(
            ids.len() as u64,
        ) + enc_strs(ids)),
        MessageContentView::FromServer(ServerMessageView::File { file_id, size, content }) => seq![
            6u8,
        ] + (enc_str(file_id) + (enc_u64(size as u64) + enc_str(content))),
        MessageContentView::FromServer(ServerMessageView::Media(id, content)) => seq![7u8] + (
        enc_str(id) + enc_str(content)),
    }
}

/// The byte form of a message.
pub open spec fn encode(m: MessageView) -> Seq<u8> {
    enc_u64(m.session_id) + (seq![m.source_id, m.destination_id] + enc_content(m.content))
}

/// A number at the head of the bytes, and what follows it.
pub open spec fn take_u64(b: Seq<u8>) -> Option<(u64, Seq<u8>)> {
    if b.len() >= 8 {
        Some((dec_u64(b.take(8)), b.skip(8)))
    } else {
        None
    }
}

/// A text at the head of the bytes, and what follows it.
pub open spec fn take_str(b: Seq<u8>) -> Option<(Seq<char>, Seq<u8>)> {
    match take_u64(b) {
        Some((n, rest)) => if n <= rest.len() && valid_utf8(rest.take(n as int)) {
            Some((decode_utf8(rest.take(n as int)), rest.skip(n as int)))
        } else {
            None
        },
        None => None,
    }
}

/// `n` texts at the head of the bytes, and what follows them.
pub open spec fn take_strs(b: Seq<u8>, n: nat) -> Option<(Seq<Seq<char>>, Seq<u8>)>
    decreases n,
{
    if n == 0 {
        Some((Seq::empty(), b))
    } else {
        match take_str(b) {
            Some((s, rest)) => match take_strs(rest, (n - 1) as nat) {
                Some((list, after)) => Some((seq![s] + list, after)),
                None => None,
            },
            None => None,
        }
    }
}

/// The content that the bytes stand for, if they are the byte form of one.
pub open spec fn dec_content(b: Seq<u8>) -> Option<MessageContentView> {
    if b.len() == 0 {
        None
    } else {
        let body = b.skip(1);
        if b[0] == 0 {
            if body.len() == 0 {
                Some(MessageContentView::FromClient(ClientMessageView::GetServerType))
            } else {
                None
            }
        } else if b[0] == 1 {
            if body.len() == 0 {
                Some(MessageContentView::FromClient(ClientMessageView::GetFilesList))
            } else {
                None
            }
        } else if b[0] == 2 {
            match take_str(body) {
                Some((id, rest)) => if rest.len() == 0 {
                    Some(MessageContentView::FromClient(ClientMessageView::GetFile(id)))
                } else {
                    None
                },
                None => None,
            }
        } else if b[0] == 3 {
            match take_str(body) {
                Some((id, rest)) => if rest.len() == 0 {
                    Some(MessageContentView::FromClient(ClientMessageView::GetMedia(id)))
                } else {
                    None
                },
                None => None,
            }
        } else if b[0] == 4 {
            if body.len() == 1 && body[0] <= 2 {
                Some(MessageContentView::FromServer(ServerMessageView::ServerType(byte_kind(body[0]))))
            } else {
                None
            }
        } else if b[0] == 5 {
            match take_u64(body) {
                Some((n, rest)) => match take_strs(rest, n as nat) {
                    Some((ids, after)) => if after.len() == 0 {
                        Some(MessageContentView::FromServer(ServerMessageView::FilesList(ids)))
                    } else {
                        None
                    },
                    None => None,
                },
                None => None,
            }
        } else if b[0] == 6 {
            match take_str(body) {
                Some((file_id, rest)) => match take_u64(rest) {
                    Some((size, rest2)) => match take_str(rest2) {
                        Some((content, rest3)) => if rest3.len() == 0 && size <= usize::MAX {
                            Some(
                                MessageContentView::FromServer(
                                    ServerMessageView::File { file_id, size: size as usize, content },
                                ),
                            )
                        } else {
                            None
                        },
                        None => None,
                    },
                    None => None,
                },
                None => None,
            }
        } else if b[0] == 7 {
            match take_str(body) {
                Some((id, rest)) => match take_str(rest) {
                    Some((content, rest2)) => if rest2.len() == 0 {
                        Some(MessageContentView::FromServer(ServerMessageView::Media(id, content)))
                    } else {
                        None
                    },
                    None => None,
                },
                None => None,
            }
        } else {
            None
        }
    }
}

/// The message that the bytes stand for, if they are the byte form of one.
pub open spec fn decode(b: Seq<u8>) -> Option<MessageView> {
    if b.len() < 10 {
        None
    } else {
        match dec_content(b.skip(10)) {
            Some(content) => Some(
                MessageView {
                    session_id: dec_u64(b.take(8)),
                    source_id: b[8],
                    destination_id: b[9],
                    content,
                },
            ),
            None => None,
        }
    }
}

/// The texts of the message are short enough for their lengths to be written.
pub open spec fn text_fits(s: Seq<char>) -> bool {
    encode_utf8(s).len() <= u64::MAX
}

pub open spec fn texts_fit(list: Seq<Seq<char>>) -> bool {
    list.len() <= u64::MAX && forall|i: int| 0 <= i < list.len() ==> text_fits(#[trigger] list[i])
}

pub open spec fn encodable(m: MessageView) -> bool {
    match m.content {
        MessageContentView::FromClient(ClientMessageView::GetFile(id)) => text_fits(id),
        MessageContentView::FromClient(ClientMessageView::GetMedia(id)) => text_fits(id),
        MessageContentView::FromServer(ServerMessageView::FilesList(ids)) => texts_fit(ids),
        MessageContentView::FromServer(ServerMessageView::File { file_id, size, content }) => text_fits(
            file_id,
        ) && text_fits(content),
        MessageContentView::FromServer(ServerMessageView::Media(id, content)) => text_fits(id)
            && text_fits(content),
        _ => true,
    }
}

pub proof fn lemma_u64_round_trip(x: u64)
    ensures
        enc_u64(x).len() == 8,
        dec_u64(enc_u64(x)) == x,
{
    reveal(enc_u64);
    reveal(dec_u64);
    let d1 = x / 0x100;
    let d2 = d1 / 0x100;
    let d3 = d2 / 0x100;
    let d4 = d3 / 0x100;
    let d5 = d4 / 0x100;
    let d6 = d5 / 0x100;
    let d7 = d6 / 0x100;
    assert(x / 0x1_0000 == (x / 0x100) / 0x100) by (bit_vector);
    assert(x / 0x100_0000 == ((x / 0x100) / 0x100) / 0x100) by (bit_vector);
    assert(x / 0x1_0000_0000 == (((x / 0x100) / 0x100) / 0x100) / 0x100) by (bit_vector);
    assert(x / 0x100_0000_0000 == ((((x / 0x100) / 0x100) / 0x100) / 0x100) / 0x100)
        by (bit_vector);
    assert(x / 0x1_0000_0000_0000 == (((((x / 0x100) / 0x100) / 0x100) / 0x100) / 0x100) / 0x100)
        by (bit_vector);
    assert(x / 0x100_0000_0000_0000 == ((((((x / 0x100) / 0x100) / 0x100) / 0x100) / 0x100)
        / 0x100) / 0x100) by (bit_vector);
    assert(x / 0x100_0000_0000_0000 < 0x100) by (bit_vector);
    assert(d7 < 256);
    let b = enc_u64(x);
    assert(b[0] == d7);
    assert(b[1] == d6 % 256);
    assert(b[2] == d5 % 256);
    assert(b[3] == d4 % 256);
    assert(b[4] == d3 % 256);
    assert(b[5] == d2 % 256);
    assert(b[6] == d1 % 256);
    assert(b[7] == x % 256);
    assert(x == d1 * 256 + x % 256);
    assert(d1 == d2 * 256 + d1 % 256);
    assert(d2 == d3 * 256 + d2 % 256);
    assert(d3 == d4 * 256 + d3 % 256);
    assert(d4 == d5 * 256 + d4 % 256);
    assert(d5 == d6 * 256 + d5 % 256);
    assert(d6 == d7 * 256 + d6 % 256);
}

pub proof fn lemma_take_u64(x: u64, rest: Seq<u8>)
    ensures
        take_u64(enc_u64(x) + rest) == Some((x, rest)),
{
    lemma_u64_round_trip(x);
    let b = enc_u64(x) + rest;
    assert(b.take(8) =~= enc_u64(x));
    assert(b.skip(8) =~= rest);
}

pub proof fn lemma_take_str(s: Seq<char>, rest: Seq<u8>)
    requires
        text_fits(s),
    ensures
        take_str(enc_str(s) + rest) == Some((s, rest)),
{
    let raw = encode_utf8(s);
    let n = raw.len() as u64;
    assert(enc_str(s) + rest =~= enc_u64(n) + (raw + rest));
    lemma_take_u64(n, raw + rest);
    assert((raw + rest).take(n as int) =~= raw);
    assert((raw + rest).skip(n as int) =~= rest);
    encode_utf8_valid_utf8(s);
    encode_utf8_decode_utf8(s);
}

pub proof fn lemma_take_strs(list: Seq<Seq<char>>, rest: Seq<u8>)
    requires
        texts_fit(list),
    ensures
        take_strs(enc_strs(list) + rest, list.len()) == Some((list, rest)),
    decreases list.len(),
{
    if list.len() == 0 {
        assert(enc_strs(list) + rest =~= rest);
    } else {
        let tail = list.drop_first();
        assert(text_fits(list[0]));
        assert(texts_fit(tail)) by {
            assert forall|i: int| 0 <= i < tail.len() implies text_fits(#[trigger] tail[i]) by {
                assert(tail[i] == list[i + 1]);
            }
        }
        assert(enc_strs(list) + rest =~= enc_str(list[0]) + (enc_strs(tail) + rest));
        lemma_take_str(list[0], enc_strs(tail) + rest);
        lemma_take_strs(tail, rest);
        assert(seq![list[0]] + tail =~= list);
    }
}

proof fn lemma_dec_content(c: MessageContentView)
    requires
        encodable(MessageView { session_id: 0, source_id: 0, destination_id: 0, content: c }),
    ensures
        dec_content(enc_content(c)) == Some(c),
{
    let b = enc_content(c);
    let none = Seq::<u8>::empty();
    match c {
        MessageContentView::FromClient(ClientMessageView::GetServerType) => {},
        MessageContentView::FromClient(ClientMessageView::GetFilesList) => {},
        MessageContentView::FromClient(ClientMessageView::GetFile(id)) => {
            assert(b.skip(1) =~= enc_str(id) + none);
            lemma_take_str(id, none);
        },
        MessageContentView::FromClient(ClientMessageView::GetMedia(id)) => {
            assert(b.skip(1) =~= enc_str(id) + none);
            lemma_take_str(id, none);
        },
        MessageContentView::FromServer(ServerMessageView::ServerType(kind)) => {
            assert(b.skip(1) =~= seq![kind_byte(kind)]);
        },
        MessageContentView::FromServer(ServerMessageView::FilesList(ids)) => {
            assert(b.skip(1) =~= enc_u64(ids.len() as u64) + (enc_strs(ids) + none));
            lemma_take_u64(ids.len() as u64, enc_strs(ids) + none);
            lemma_take_strs(ids, none);
        },
        MessageContentView::FromServer(ServerMessageView::File { file_id, size, content }) => {
            let tail2 = enc_str(content) + none;
            let tail1 = enc_u64(size as u64) + tail2;
            assert(b.skip(1) =~= enc_str(file_id) + tail1);
            lemma_take_str(file_id, tail1);
            lemma_take_u64(size as u64, tail2);
            lemma_take_str(content, none);
        },
        MessageContentView::FromServer(ServerMessageView::Media(id, content)) => {
            let tail = enc_str(content) + none;
            assert(b.skip(1) =~= enc_str(id) + tail);
            lemma_take_str(id, tail);
            lemma_take_str(content, none);
        },
    }
}

/// Reading the byte form of a message gives the message back.
pub proof fn lemma_decode_encode(m: MessageView)
    requires
        encodable(m),
    ensures
        decode(encode(m)) == Some(m),
{
    let b = encode(m);
    lemma_u64_round_trip(m.session_id);
    assert(b.take(8) =~= enc_u64(m.session_id));
    assert(b.skip(10) =~= enc_content(m.content));
    lemma_dec_content(m.content);
    assert(enc_content(m.content).len() > 0);
}

/// Wraps `String::from_utf8` of the standard library, which turns bytes that
/// are valid UTF-8 into the string with those bytes and refuses any other.
#[verifier::external_body]
fn string_from_utf8(bytes: Vec<u8>) -> (res: Option<String>)
    ensures
        match res {
            Some(s) => valid_utf8(bytes@) && encode_utf8(s@) == bytes@,
            None => !valid_utf8(bytes@),
        },
{
    String::from_utf8(bytes).ok()
}

fn write_u64(out: &mut Vec<u8>, x: u64)
    ensures
        final(out)@ == old(out)@ + enc_u64(x),
{
    out.push((x / 0x100_0000_0000_0000) as u8);
    out.push(((x / 0x1_0000_0000_0000) % 256) as u8);
    out.push(((x / 0x100_0000_0000) % 256) as u8);
    out.push(((x / 0x1_0000_0000) % 256) as u8);
    out.push(((x / 0x100_0000) % 256) as u8);
    out.push(((x / 0x1_0000) % 256) as u8);
    out.push(((x / 0x100) % 256) as u8);
    out.push((x % 256) as u8);
    proof {
        reveal(enc_u64);
    }
    assert(out@ =~= old(out)@ + enc_u64(x));
}

fn write_str(out: &mut Vec<u8>, s: &String)
    ensures
        final(out)@ == old(out)@ + enc_str(s@),
        text_fits(s@),
{
    let raw = s.as_str().as_bytes();
    assert(raw@ == encode_utf8(s@));
    write_u64(out, raw.len() as u64);
    let ghost start = out@;
    let mut i: usize = 0;
    while i < raw.len()
        invariant
            i <= raw@.len(),
            out@ == start + raw@.take(i as int),
        decreases raw@.len() - i,
    {
        out.push(raw[i]);
        i = i + 1;
        assert(out@ =~= start + raw@.take(i as int));
    }
    assert(raw@.take(raw@.len() as int) =~= raw@);
    assert(out@ =~= old(out)@ + enc_str(s@));
}

proof fn lemma_enc_strs_push(list: Seq<Seq<char>>, s: Seq<char>)
    ensures
        enc_strs(list.push(s)) == enc_strs(list) + enc_str(s),
    decreases list.len(),
{
    if list.len() == 0 {
        let none = Seq::<Seq<char>>::empty();
        assert(list.push(s).drop_first() =~= none);
        assert(enc_strs(none) =~= Seq::<u8>::empty());
        assert(enc_strs(list) =~= Seq::<u8>::empty());
        assert(enc_strs(list.push(s)) == enc_str(s) + enc_strs(none));
        assert(enc_strs(list.push(s)) =~= enc_strs(list) + enc_str(s));
    } else {
        lemma_enc_strs_push(list.drop_first(), s);
        assert(list.push(s).drop_first() =~= list.drop_first().push(s));
        assert(enc_strs(list.push(s)) =~= enc_strs(list) + enc_str(s));
    }
}

/// Writes a message out.
pub fn encode_message(m: &Message) -> (res: Vec<u8>)
    ensures
        res@ == encode(m@),
        encodable(m@),
{
    let mut out: Vec<u8> = Vec::new();
    write_u64(&mut out, m.session_id);
    out.push(m.source_id);
    out.push(m.destination_id);
    let ghost head = out@;
    assert(head =~= enc_u64(m.session_id) + seq![m.source_id, m.destination_id]);
    match &m.content {
        MessageContent::FromClient(ClientMessage::GetServerType) => {
            out.push(0);
        },
        MessageContent::FromClient(ClientMessage::GetFilesList) => {
            out.push(1);
        },
        MessageContent::FromClient(ClientMessage::GetFile(id)) => {
            out.push(2);
            write_str(&mut out, id);
        },
        MessageContent::FromClient(ClientMessage::GetMedia(id)) => {
            out.push(3);
            write_str(&mut out, id);
        },
        MessageContent::FromServer(ServerMessage::ServerType(kind)) => {
            out.push(4);
            out.push(
                match kind {
                    ServerType::Chat => 0,
                    ServerType::Text => 1,
                    ServerType::Media => 2,
                },
            );
        },
        MessageContent::FromServer(ServerMessage::FilesList(ids)) => {
            out.push(5);
            write_u64(&mut out, ids.len() as u64);
            let ghost start = out@;
            let mut i: usize = 0;
            assert(texts(ids@).take(0) =~= Seq::<Seq<char>>::empty());
            assert(out@ =~= start + enc_strs(texts(ids@).take(0)));
            while i < ids.len()
                invariant
                    i <= ids@.len(),
                    out@ == start + enc_strs(texts(ids@).take(i as int)),
                    forall|j: int| 0 <= j < i ==> text_fits(#[trigger] texts(ids@)[j]),
                decreases ids@.len() - i,
            {
                let ghost before = out@;
                write_str(&mut out, &ids[i]);
                proof {
                    let upto = texts(ids@).take(i as int);
                    lemma_enc_strs_push(upto, ids@[i as int]@);
                    assert(texts(ids@).take(i + 1) =~= upto.push(ids@[i as int]@));
                    assert(out@ =~= start + enc_strs(texts(ids@).take(i + 1)));
                }
                i = i + 1;
            }
            assert(texts(ids@).take(ids@.len() as int) =~= texts(ids@));
        },
        MessageContent::FromServer(ServerMessage::File { file_id, size, content }) => {
            out.push(6);
            write_str(&mut out, file_id);
            write_u64(&mut out, *size as u64);
            write_str(&mut out, content);
        },
        MessageContent::FromServer(ServerMessage::Media(id, content)) => {
            out.push(7);
            write_str(&mut out, id);
            write_str(&mut out, content);
        },
    }
    assert(out@ =~= encode(m@));
    out
}

fn read_u64(bytes: &Vec<u8>, pos: usize) -> (res: Option<(u64, usize)>)
    requires
        pos <= bytes@.len(),
    ensures
        match take_u64(bytes@.skip(pos as int)) {
            Some((x, rest)) => res == Some((x, (pos + 8) as usize)) && pos + 8 <= bytes@.len()
                && rest == bytes@.skip(pos + 8),
            None => res.is_none(),
        },
{
    if bytes.len() - pos < 8 {
        return None;
    }
    let ghost b = bytes@.skip(pos as int).take(8);
    proof {
        reveal(dec_u64);
    }
    assert(forall|i: int| 0 <= i < 8 ==> b[i] == bytes@[pos + i]);
    let x: u64 = bytes[pos] as u64 * 0x100_0000_0000_0000 + bytes[pos + 1] as u64
        * 0x1_0000_0000_0000 + bytes[pos + 2] as u64 * 0x100_0000_0000 + bytes[pos + 3] as u64
        * 0x1_0000_0000 + bytes[pos + 4] as u64 * 0x100_0000 + bytes[pos + 5] as u64 * 0x1_0000
        + bytes[pos + 6] as u64 * 0x100 + bytes[pos + 7] as u64;
    assert(bytes@.skip(pos as int).skip(8) =~= bytes@.skip(pos + 8));
    Some((x, pos + 8))
}

fn read_str(bytes: &Vec<u8>, pos: usize) -> (res: Option<(String, usize)>)
    requires
        pos <= bytes@.len(),
    ensures
        match take_str(bytes@.skip(pos as int)) {
            Some((s, rest)) => res.is_some() && res.unwrap().0@ == s && pos <= res.unwrap().1
                <= bytes@.len() && rest == bytes@.skip(res.unwrap().1 as int),
            None => res.is_none(),
        },
{
    let (n, at) = match read_u64(bytes, pos) {
        Some(r) => r,
        None => {
            return None;
        },
    };
    if n > (bytes.len() - at) as u64 {
        return None;
    }
    let end: usize = at + n as usize;
    let mut raw: Vec<u8> = Vec::new();
    let mut i: usize = at;
    while i < end
        invariant
            at <= i <= end <= bytes@.len(),
            raw@ == bytes@.subrange(at as int, i as int),
        decreases end - i,
    {
        raw.push(bytes[i]);
        i = i + 1;
        assert(raw@ =~= bytes@.subrange(at as int, i as int));
    }
    proof {
        assert(bytes@.skip(at as int).take(n as int) =~= raw@);
        assert(bytes@.skip(at as int).skip(n as int) =~= bytes@.skip(end as int));
    }
    match string_from_utf8(raw) {
        Some(s) => {
            proof {
                encode_utf8_decode_utf8(s@);
            }
            Some((s, end))
        },
        None => None,
    }
}

fn read_strs(bytes: &Vec<u8>, pos: usize, n: u64) -> (res: Option<(Vec<String>, usize)>)
    requires
        pos <= bytes@.len(),
    ensures
        match take_strs(bytes@.skip(pos as int), n as nat) {
            Some((list, rest)) => res.is_some() && texts(res.unwrap().0@) == list && pos
                <= res.unwrap().1 <= bytes@.len() && rest == bytes@.skip(res.unwrap().1 as int),
            None => res.is_none(),
        },
{
    let mut list: Vec<String> = Vec::new();
    let mut at: usize = pos;
    let mut i: u64 = 0;
    let ghost whole = take_strs(bytes@.skip(pos as int), n as nat);
    assert(texts(list@) =~= Seq::<Seq<char>>::empty());
    assert(Seq::<Seq<char>>::empty() + Seq::<Seq<char>>::empty() =~= Seq::<Seq<char>>::empty());
    while i < n
        invariant
            i <= n,
            pos <= at <= bytes@.len(),
            whole == take_strs(bytes@.skip(pos as int), n as nat),
            whole == match take_strs(bytes@.skip(at as int), (n - i) as nat) {
                Some((more, rest)) => Some((texts(list@) + more, rest)),
                None => None::<(Seq<Seq<char>>, Seq<u8>)>,
            },
        decreases n - i,
    {
        let ghost before = texts(list@);
        match read_str(bytes, at) {
            None => {
                return None;
            },
            Some((s, next)) => {
                proof {
                    let tail = take_strs(bytes@.skip(next as int), (n - i - 1) as nat);
                    if tail.is_some() {
                        assert((before + (seq![s@] + tail.unwrap().0)) =~= (before.push(s@)
                            + tail.unwrap().0));
                    }
                }
                list.push(s);
                proof {
                    assert(texts(list@) =~= before.push(s@));
                }
                at = next;
                i = i + 1;
            },
        }
    }
    proof {
        assert(texts(list@) + Seq::<Seq<char>>::empty() =~= texts(list@));
    }
    Some((list, at))
}

fn read_content(bytes: &Vec<u8>, pos: usize) -> (res: Option<MessageContent>)
    requires
        pos <= bytes@.len(),
    ensures
        match dec_content(bytes@.skip(pos as int)) {
            Some(c) => res.is_some() && res.unwrap()@ == c,
            None => res.is_none(),
        },
{
    if pos == bytes.len() {
        return None;
    }
    let tag = bytes[pos];
    let body: usize = pos + 1;
    let len = bytes.len();
    proof {
        assert(bytes@.skip(pos as int)[0] == tag);
        assert(bytes@.skip(pos as int).skip(1) =~= bytes@.skip(body as int));
    }
    if tag == 0 {
        if body == len {
            Some(MessageContent::FromClient(ClientMessage::GetServerType))
        } else {
            None
        }
    } else if tag == 1 {
        if body == len {
            Some(MessageContent::FromClient(ClientMessage::GetFilesList))
        } else {
            None
        }
    } else if tag == 2 {
        match read_str(bytes, body) {
            Some((id, at)) => if at == len {
                Some(MessageContent::FromClient(ClientMessage::GetFile(id)))
            } else {
                None
            },
            None => None,
        }
    } else if tag == 3 {
        match read_str(bytes, body) {
            Some((id, at)) => if at == len {
                Some(MessageContent::FromClient(ClientMessage::GetMedia(id)))
            } else {
                None
            },
            None => None,
        }
    } else if tag == 4 {
        if len - body == 1 && bytes[body] <= 2 {
            let b = bytes[body];
            assert(bytes@.skip(body as int)[0] == b);
            let kind = if b == 0 {
                ServerType::Chat
            } else if b == 1 {
                ServerType::Text
            } else {
                ServerType::Media
            };
            Some(MessageContent::FromServer(ServerMessage::ServerType(kind)))
        } else {
            proof {
                if len - body == 1 {
                    assert(bytes@.skip(body as int)[0] == bytes@[body as int]);
                }
            }
            None
        }
    } else if tag == 5 {
        match read_u64(bytes, body) {
            Some((n, at)) => match read_strs(bytes, at, n) {
                Some((ids, end)) => if end == len {
                    Some(MessageContent::FromServer(ServerMessage::FilesList(ids)))
                } else {
                    None
                },
                None => None,
            },
            None => None,
        }
    } else if tag == 6 {
        match read_str(bytes, body) {
            Some((file_id, at)) => match read_u64(bytes, at) {
                Some((size, at2)) => match read_str(bytes, at2) {
                    Some((content, end)) => if end == len && size <= usize::MAX as u64 {
                        Some(
                            MessageContent::FromServer(
                                ServerMessage::File { file_id, size: size as usize, content },
                            ),
                        )
                    } else {
                        None
                    },
                    None => None,
                },
                None => None,
            },
            None => None,
        }
    } else if tag == 7 {
        match read_str(bytes, body) {
            Some((id, at)) => match read_str(bytes, at) {
                Some((content, end)) => if end == len {
                    Some(MessageContent::FromServer(ServerMessage::Media(id, content)))
                } else {
                    None
                },
                None => None,
            },
            None => None,
        }
    } else {
        None
    }
}

/// Reads a message; `None` where the bytes are not the byte form of one.
pub fn decode_message(bytes: &Vec<u8>) -> (res: Option<Message>)
    ensures
        match decode(bytes@) {
            Some(m) => res.is_some() && res.unwrap()@ == m,
            None => res.is_none(),
        },
{
    if bytes.len() < 10 {
        return None;
    }
    let session_id = match read_u64(bytes, 0) {
        Some((x, _)) => x,
        None => {
            return None;
        },
    };
    proof {
        assert(bytes@.skip(0) =~= bytes@);
    }
    let source_id = bytes[8];
    let destination_id = bytes[9];
    match read_content(bytes, 10) {
        Some(content) => Some(Message { session_id, source_id, destination_id, content }),
        None => None,
    }
}

} // verus!
