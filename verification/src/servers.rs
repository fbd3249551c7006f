//! What the client has learnt of the servers it talks to: the files a text
//! server offers and the media a media server holds.

use vstd::prelude::*;
use std::collections::HashMap;
use crate::assoc::{
    as_map, has_key, keys_unique, lemma_empty, lemma_lookup, lemma_push, lemma_update,
    position_of,
};
use crate::markup::texts;
use crate::message::ServerType;
use crate::packet::NodeId;

verus! {

pub type FileId = String;

pub type MediaId = String;

pub type MediaContent = String;

/// The characters of an optional string.
pub open spec fn opt_text(o: Option<String>) -> Option<Seq<char>> {
    match o {
        Some(s) => Some(s@),
        None => None,
    }
}

/// The media of one media server: for each identifier that is known, the
/// content if it was fetched.
pub struct MediaServer {
    media_files: Vec<(MediaId, Option<MediaContent>)>,
}

impl MediaServer {
    closed spec fn pairs(&self) -> Seq<(Seq<char>, Option<Seq<char>>)> {
        Seq::new(
            self.media_files@.len(),
            |i: int| (self.media_files@[i].0@, opt_text(self.media_files@[i].1)),
        )
    }

    /// No identifier is held twice.
    pub closed spec fn wf(&self) -> bool {
        keys_unique(self.pairs())
    }

    /// The content, or its absence, by identifier.
    pub closed spec fn view(&self) -> Map<Seq<char>, Option<Seq<char>>> {
        as_map(self.pairs())
    }

    pub fn new() -> (res: Self)
        ensures
            res.wf(),
            res@ == Map::<Seq<char>, Option<Seq<char>>>::empty(),
    {
        let res = MediaServer { media_files: Vec::new() };
        proof {
            lemma_empty::<Seq<char>, Option<Seq<char>>>();
            assert(res.pairs() =~= Seq::empty());
        }
        res
    }

    fn find(&self, id: &MediaId) -> (res: Option<usize>)
        requires
            self.wf(),
        ensures
            match res {
                Some(i) => i < self.media_files@.len() && self.media_files@[i as int].0@ == id@
                    && self@.dom().contains(id@) && self@[id@] == opt_text(
                    self.media_files@[i as int].1,
                ),
                None => !has_key(self.pairs(), id@) && !self@.dom().contains(id@),
            },
    {
        let mut i: usize = 0;
        while i < self.media_files.len()
            invariant
                self.wf(),
                i <= self.media_files@.len(),
                forall|j: int| 0 <= j < i ==> (#[trigger] self.pairs()[j]).0 != id@,
            decreases self.media_files@.len() - i,
        {
            if self.media_files[i].0 == *id {
                proof {
                    lemma_lookup(self.pairs(), i as int);
                }
                return Some(i);
            }
            i = i + 1;
        }
        None
    }

    fn put(&mut self, id: MediaId, content: Option<MediaContent>)
        requires
            old(self).wf(),
        ensures
            final(self).wf(),
            final(self)@ == old(self)@.insert(id@, opt_text(content)),
    {
        let found = self.find(&id);
        let ghost before = self.pairs();
        let ghost value = opt_text(content);
        let ghost key = id@;
        match found {
            Some(i) => {
                self.media_files[i] = (id, content);
                proof {
                    lemma_update(before, i as int, value);
                    assert(self.pairs() =~= before.update(i as int, (before[i as int].0, value)));
                }
            },
            None => {
                self.media_files.push((id, content));
                proof {
                    lemma_push(before, key, value);
                    assert(self.pairs() =~= before.push((key, value)));
                }
            },
        }
    }

    /// Makes the identifier known without content; content that was held
    /// under it is dropped.
    pub fn add_media_id(&mut self, id: MediaId)
        requires
            old(self).wf(),
        ensures
            final(self).wf(),
            final(self)@ == old(self)@.insert(id@, None::<Seq<char>>),
    {
        self.put(id, None);
    }

    /// Holds the content under the identifier.
    pub fn add_media(&mut self, id: MediaId, media_content: MediaContent)
        requires
            old(self).wf(),
        ensures
            final(self).wf(),
            final(self)@ == old(self)@.insert(id@, Some(media_content@)),
    {
        self.put(id, Some(media_content));
    }

    /// The content under the identifier, if it was fetched.
    pub fn get_media(&self, id: &MediaId) -> (res: Option<&MediaContent>)
        requires
            self.wf(),
        ensures
            match res {
                Some(content) => self@.dom().contains(id@) && self@[id@] == Some(content@),
                None => !self@.dom().contains(id@) || self@[id@].is_none(),
            },
    {
        match self.find(id) {
            Some(i) => self.media_files[i].1.as_ref(),
            None => None,
        }
    }
}

/// A text file as a text server holds it, with the media it refers to:
/// `(media_server, media_id)`.
pub struct TextFile {
    content: String,
    size: usize,
    media_ref: Vec<(NodeId, MediaId)>,
}

pub struct TextFileView {
    pub content: Seq<char>,
    pub size: usize,
    pub media_ref: Seq<(NodeId, Seq<char>)>,
}

/// The views of the references, in order.
pub open spec fn ref_views(v: Seq<(NodeId, MediaId)>) -> Seq<(NodeId, Seq<char>)> {
    Seq::new(v.len(), |i: int| (v[i].0, v[i].1@))
}

impl View for TextFile {
    type V = TextFileView;

    closed spec fn view(&self) -> TextFileView {
        TextFileView {
            content: self.content@,
            size: self.size,
            media_ref: ref_views(self.media_ref@),
        }
    }
}

/// A copy of a list of references.
pub fn copy_refs(v: &Vec<(NodeId, MediaId)>) -> (res: Vec<(NodeId, MediaId)>)
    ensures
        ref_views(res@) == ref_views(v@),
{
    let mut res: Vec<(NodeId, MediaId)> = Vec::new();
    let mut i: usize = 0;
    while i < v.len()
        invariant
            i <= v@.len(),
            res@.len() == i,
            forall|j: int| 0 <= j < i ==> (#[trigger] res@[j]).0 == v@[j].0 && res@[j].1@ == v@[j].1@,
        decreases v@.len() - i,
    {
        res.push((v[i].0, v[i].1.clone()));
        i = i + 1;
    }
    assert(ref_views(res@) =~= ref_views(v@));
    res
}

impl TextFile {
    /// A text file that refers to no media.
    pub fn new(content: String, size: usize) -> (res: Self)
        ensures
            res@ == (TextFileView { content: content@, size, media_ref: Seq::empty() }),
    {
        let media_ref: Vec<(NodeId, MediaId)> = Vec::new();
        assert(ref_views(media_ref@) =~= Seq::<(NodeId, Seq<char>)>::empty());
        Self { content, media_ref, size }
    }

    /// A text file that refers to the given media.
    pub fn with_media_ref(content: String, size: usize, media_ref: Vec<(NodeId, MediaId)>) -> (res:
        Self)
        ensures
            res@ == (TextFileView { content: content@, size, media_ref: ref_views(media_ref@) }),
    {
        Self { content, media_ref, size }
    }

    pub fn get_media_ref(&self) -> (res: &Vec<(NodeId, MediaId)>)
        ensures
            ref_views(res@) == self@.media_ref,
    {
        &self.media_ref
    }

    pub fn get_media_number(&self) -> (res: usize)
        ensures
            res == self@.media_ref.len(),
    {
        self.media_ref.len()
    }

    pub fn get_content(&self) -> (res: String)
        ensures
            res@ == self@.content,
    {
        self.content.clone()
    }
}

/// The view of an optional text file.
pub open spec fn opt_file(o: Option<TextFile>) -> Option<TextFileView> {
    match o {
        Some(f) => Some(f@),
        None => None,
    }
}

/// The list with `value` under `key`: in the place of the entry with that
/// key, or at the end.
pub open spec fn put_entry<K, V>(list: Seq<(K, V)>, key: K, value: V) -> Seq<(K, V)> {
    if has_key(list, key) {
        list.update(position_of(list, key), (key, value))
    } else {
        list.push((key, value))
    }
}

/// The list with each of the keys put in without a value, in order.
pub open spec fn put_all_empty<V>(list: Seq<(Seq<char>, Option<V>)>, keys: Seq<Seq<char>>) -> Seq<
    (Seq<char>, Option<V>),
>
    decreases keys.len(),
{
    if keys.len() == 0 {
        list
    } else {
        put_entry(put_all_empty(list, keys.drop_last()), keys.last(), None::<V>)
    }
}

/// The files of one text server: for each file that is known, the file if it
/// was fetched, in the order in which the files became known.
pub struct TextServer {
    text_files: Vec<(FileId, Option<TextFile>)>,
}

impl TextServer {
    /// The entries in order.
    pub closed spec fn view(&self) -> Seq<(Seq<char>, Option<TextFileView>)> {
        Seq::new(
            self.text_files@.len(),
            |i: int| (self.text_files@[i].0@, opt_file(self.text_files@[i].1)),
        )
    }

    /// No file is held twice.
    pub open spec fn wf(&self) -> bool {
        keys_unique(self@)
    }

    pub fn new() -> (res: Self)
        ensures
            res.wf(),
            res@ == Seq::<(Seq<char>, Option<TextFileView>)>::empty(),
    {
        let res = TextServer { text_files: Vec::new() };
        assert(res@ =~= Seq::empty());
        res
    }

    fn find(&self, id: &FileId) -> (res: Option<usize>)
        requires
            self.wf(),
        ensures
            match res {
                Some(i) => i < self@.len() && self@[i as int].0 == id@ && has_key(self@, id@)
                    && position_of(self@, id@) == i,
                None => !has_key(self@, id@),
            },
    {
        let mut i: usize = 0;
        while i < self.text_files.len()
            invariant
                self.wf(),
                i <= self.text_files@.len(),
                forall|j: int| 0 <= j < i ==> (#[trigger] self@[j]).0 != id@,
            decreases self.text_files@.len() - i,
        {
            if self.text_files[i].0 == *id {
                proof {
                    lemma_lookup(self@, i as int);
                }
                return Some(i);
            }
            i = i + 1;
        }
        None
    }

    fn put(&mut self, id: FileId, file: Option<TextFile>)
        requires
            old(self).wf(),
        ensures
            final(self).wf(),
            final(self)@ == put_entry(old(self)@, id@, opt_file(file)),
    {
        let found = self.find(&id);
        let ghost before = self@;
        let ghost value = opt_file(file);
        let ghost key = id@;
        match found {
            Some(i) => {
                self.text_files[i] = (id, file);
                proof {
                    lemma_update(before, i as int, value);
                    assert(self@ =~= before.update(i as int, (key, value)));
                }
            },
            None => {
                self.text_files.push((id, file));
                proof {
                    lemma_push(before, key, value);
                    assert(self@ =~= before.push((key, value)));
                }
            },
        }
    }

    /// Makes the file known without content; a file that was held under the
    /// identifier is dropped.
    pub fn add_file_id(&mut self, id: FileId)
        requires
            old(self).wf(),
        ensures
            final(self).wf(),
            final(self)@ == put_entry(old(self)@, id@, None::<TextFileView>),
    {
        self.put(id, None);
    }

    pub fn bulk_add_file_id(&mut self, ids: Vec<FileId>)
        requires
            old(self).wf(),
        ensures
            final(self).wf(),
            final(self)@ == put_all_empty(old(self)@, texts(ids@)),
    {
        let ghost keys = texts(ids@);
        let mut i: usize = 0;
        assert(keys.take(0) =~= Seq::<Seq<char>>::empty());
        while i < ids.len()
            invariant
                i <= ids@.len(),
                keys == texts(ids@),
                self.wf(),
                self@ == put_all_empty(old(self)@, keys.take(i as int)),
            decreases ids@.len() - i,
        {
            proof {
                assert(keys.take(i + 1).drop_last() =~= keys.take(i as int));
                assert(keys.take(i + 1).last() == ids@[i as int]@);
            }
            self.add_file_id(ids[i].clone());
            i = i + 1;
        }
        assert(keys.take(keys.len() as int) =~= keys);
    }

    /// Holds a file under the identifier and returns the media it refers to.
    pub fn add_file(&mut self, id: FileId, file_content: String, size: usize) -> (res: Vec<
        (NodeId, MediaId),
    >)
        requires
            old(self).wf(),
        ensures
            final(self).wf(),
            final(self)@ == put_entry(
                old(self)@,
                id@,
                Some(TextFileView { content: file_content@, size, media_ref: Seq::empty() }),
            ),
            res@.len() == 0,
    {
        let file = TextFile::new(file_content, size);
        let refs = copy_refs(&file.media_ref);
        assert(ref_views(refs@).len() == refs@.len());
        self.put(id, Some(file));
        refs
    }

    /// Holds the given file under the identifier.
    pub fn put_file(&mut self, id: FileId, file: TextFile)
        requires
            old(self).wf(),
        ensures
            final(self).wf(),
            final(self)@ == put_entry(old(self)@, id@, Some(file@)),
    {
        self.put(id, Some(file));
    }

    /// The file under the identifier, if it was fetched.
    pub fn get_file(&self, id: &FileId) -> (res: Option<&TextFile>)
        requires
            self.wf(),
        ensures
            match res {
                Some(file) => has_key(self@, id@) && as_map(self@)[id@] == Some(file@),
                None => !has_key(self@, id@) || as_map(self@)[id@].is_none(),
            },
    {
        match self.find(id) {
            Some(i) => {
                proof {
                    lemma_lookup(self@, i as int);
                }
                self.text_files[i].1.as_ref()
            },
            None => None,
        }
    }

    /// The entries in order.
    pub fn get_files(&self) -> (res: &Vec<(FileId, Option<TextFile>)>)
        ensures
            res@.len() == self@.len(),
            forall|i: int|
                0 <= i < res@.len() ==> (#[trigger] res@[i]).0@ == self@[i].0 && opt_file(res@[i].1)
                    == self@[i].1,
    {
        &self.text_files
    }
}

/// What is known of one server.
pub enum Server {
    TextServer(TextServer),
    MediaServer(MediaServer),
}

pub enum ServerView {
    TextServer(Seq<(Seq<char>, Option<TextFileView>)>),
    MediaServer(Map<Seq<char>, Option<Seq<char>>>),
}

impl View for Server {
    type V = ServerView;

    open spec fn view(&self) -> ServerView {
        match self {
            Server::TextServer(s) => ServerView::TextServer(s@),
            Server::MediaServer(s) => ServerView::MediaServer(s@),
        }
    }
}

impl Server {
    pub open spec fn wf(&self) -> bool {
        match self {
            Server::TextServer(s) => s.wf(),
            Server::MediaServer(s) => s.wf(),
        }
    }
}

/// The view of an optional server.
pub open spec fn opt_server(o: Option<Server>) -> Option<ServerView> {
    match o {
        Some(s) => Some(s@),
        None => None,
    }
}

/// A text file with the media it refers to, as far as they were put in.
#[derive(Debug, PartialEq, Eq)]
pub struct CompleteFile {
    pub file_id: FileId,
    pub text_content: String,
    pub media_number: usize,
    pub media_index: usize,
    pub media_files: Vec<MediaContent>,
}

pub struct CompleteFileView {
    pub file_id: Seq<char>,
    pub text_content: Seq<char>,
    pub media_number: usize,
    pub media_index: usize,
    pub media_files: Seq<Seq<char>>,
}

impl View for CompleteFile {
    type V = CompleteFileView;

    open spec fn view(&self) -> CompleteFileView {
        CompleteFileView {
            file_id: self.file_id@,
            text_content: self.text_content@,
            media_number: self.media_number,
            media_index: self.media_index,
            media_files: texts(self.media_files@),
        }
    }
}

impl CompleteFile {
    /// The index counts the media that were put in.
    pub open spec fn wf(&self) -> bool {
        self.media_index == self.media_files@.len()
    }

    /// A file that waits for `media_number` media.
    pub fn new_building(file_id: FileId, text_file: String, media_number: usize) -> (res: Self)
        ensures
            res.wf(),
            res@ == (CompleteFileView {
                file_id: file_id@,
                text_content: text_file@,
                media_number,
                media_index: 0,
                media_files: Seq::empty(),
            }),
    {
        let res = Self {
            file_id,
            text_content: text_file,
            media_number,
            media_index: 0,
            media_files: Vec::new(),
        };
        assert(texts(res.media_files@) =~= Seq::<Seq<char>>::empty());
        res
    }

    /// A file that refers to no media.
    pub fn new_without_media(file_id: FileId, text_file: String) -> (res: Self)
        ensures
            res.wf(),
            res@ == (CompleteFileView {
                file_id: file_id@,
                text_content: text_file@,
                media_number: 0,
                media_index: 0,
                media_files: Seq::empty(),
            }),
    {
        Self::new_building(file_id, text_file, 0)
    }

    /// Puts one more media in and tells whether the file has all it waits for.
    pub fn add_media(&mut self, media_content: MediaContent) -> (res: bool)
        requires
            old(self).wf(),
        ensures
            final(self).wf(),
            final(self)@ == (CompleteFileView {
                media_index: (old(self).media_index + 1) as usize,
                media_files: old(self)@.media_files.push(media_content@),
                ..old(self)@
            }),
            res == (old(self).media_index + 1 >= old(self).media_number),
    {
        let ghost before = texts(self.media_files@);
        let ghost added = media_content@;
        self.media_files.push(media_content);
        assert(texts(self.media_files@) =~= before.push(added));
        self.media_index = self.media_files.len();
        self.media_index >= self.media_number
    }
}

/// The content of media `media_id` of server `node`, where that server is
/// known as a media server and has fetched it.
pub open spec fn media_at(
    servers: Map<NodeId, Option<ServerView>>,
    node: NodeId,
    media_id: Seq<char>,
) -> Option<Seq<char>> {
    if servers.dom().contains(node) {
        match servers[node] {
            Some(ServerView::MediaServer(media)) => if media.dom().contains(media_id) {
                media[media_id]
            } else {
                None
            },
            _ => None,
        }
    } else {
        None
    }
}

/// The contents of those of the references that are at hand, in order.
pub open spec fn media_found(
    servers: Map<NodeId, Option<ServerView>>,
    refs: Seq<(NodeId, Seq<char>)>,
) -> Seq<Seq<char>>
    decreases refs.len(),
{
    if refs.len() == 0 {
        Seq::empty()
    } else {
        match media_at(servers, refs.last().0, refs.last().1) {
            Some(content) => media_found(servers, refs.drop_last()).push(content),
            None => media_found(servers, refs.drop_last()),
        }
    }
}

/// The file with its media, where it refers to some and all of them are at
/// hand.
pub open spec fn completed(
    servers: Map<NodeId, Option<ServerView>>,
    file_id: Seq<char>,
    file: Option<TextFileView>,
) -> Option<CompleteFileView> {
    match file {
        Some(f) => if f.media_ref.len() > 0 && media_found(servers, f.media_ref).len()
            == f.media_ref.len() {
            Some(
                CompleteFileView {
                    file_id,
                    text_content: f.content,
                    media_number: f.media_ref.len() as usize,
                    media_index: f.media_ref.len() as usize,
                    media_files: media_found(servers, f.media_ref),
                },
            )
        } else {
            None
        },
        None => None,
    }
}

/// The first of the files, in order, that is complete.
pub open spec fn first_completed(
    servers: Map<NodeId, Option<ServerView>>,
    files: Seq<(Seq<char>, Option<TextFileView>)>,
) -> Option<CompleteFileView>
    decreases files.len(),
{
    if files.len() == 0 {
        None
    } else {
        match completed(servers, files[0].0, files[0].1) {
            Some(c) => Some(c),
            None => first_completed(servers, files.drop_first()),
        }
    }
}

/// What is known of server `id`, if it is known and its kind is.
pub open spec fn lookup_server(servers: Map<NodeId, Option<ServerView>>, id: NodeId) -> Option<
    ServerView,
> {
    if servers.dom().contains(id) {
        servers[id]
    } else {
        None
    }
}

/// The first complete file of the text server with the smallest identifier
/// from `k` on that has one.
pub open spec fn first_completed_from(servers: Map<NodeId, Option<ServerView>>, k: nat) -> Option<
    CompleteFileView,
>
    decreases 256 - k,
{
    if k >= 256 {
        None
    } else {
        let here = match lookup_server(servers, k as u8) {
            Some(ServerView::TextServer(files)) => first_completed(servers, files),
            _ => None,
        };
        match here {
            Some(c) => Some(c),
            None => first_completed_from(servers, k + 1),
        }
    }
}

/// The first complete file of the text server with the smallest identifier
/// that has one.
pub open spec fn first_completed_among(servers: Map<NodeId, Option<ServerView>>) -> Option<
    CompleteFileView,
> {
    first_completed_from(servers, 0)
}

proof fn lemma_media_found_len(servers: Map<NodeId, Option<ServerView>>, refs: Seq<(NodeId, Seq<char>)>)
    ensures
        media_found(servers, refs).len() <= refs.len(),
    decreases refs.len(),
{
    if refs.len() > 0 {
        lemma_media_found_len(servers, refs.drop_last());
    }
}

/// Where the first `k` references are not all at hand, the whole list is not.
proof fn lemma_media_found_short(
    servers: Map<NodeId, Option<ServerView>>,
    refs: Seq<(NodeId, Seq<char>)>,
    k: int,
)
    requires
        0 <= k <= refs.len(),
        media_found(servers, refs.take(k)).len() < k,
    ensures
        media_found(servers, refs).len() < refs.len(),
    decreases refs.len() - k,
{
    if k < refs.len() {
        assert(refs.take(k + 1).drop_last() =~= refs.take(k));
        lemma_media_found_short(servers, refs, k + 1);
    } else {
        assert(refs.take(k) =~= refs);
    }
}

/// A server that is known by its kind is well-formed.
pub open spec fn server_ok(server: Option<Server>) -> bool {
    match server {
        Some(s) => s.wf(),
        None => true,
    }
}

/// The servers that the client has heard of, by their identifiers.
pub struct KnownServers {
    servers: HashMap<NodeId, Option<Server>>,
}

impl KnownServers {
    /// What is known of each server.
    pub closed spec fn view(&self) -> Map<NodeId, Option<ServerView>> {
        Map::new(
            |id: NodeId| self.servers@.dom().contains(id),
            |id: NodeId| opt_server(self.servers@[id]),
        )
    }

    /// Each server that is known by its kind is well-formed.
    pub closed spec fn wf(&self) -> bool {
        forall|id: NodeId| self.servers@.dom().contains(id) ==> server_ok(#[trigger] self.servers@[id])
    }

    pub fn new() -> (res: Self)
        ensures
            res.wf(),
            res@ == Map::<NodeId, Option<ServerView>>::empty(),
    {
        let res = KnownServers { servers: HashMap::new() };
        assert(res@ =~= Map::<NodeId, Option<ServerView>>::empty());
        res
    }

    fn put(&mut self, id: NodeId, server: Option<Server>)
        requires
            old(self).wf(),
            server_ok(server),
        ensures
            final(self).wf(),
            final(self)@ == old(self)@.insert(id, opt_server(server)),
    {
        let ghost value = opt_server(server);
        self.servers.insert(id, server);
        proof {
            assert(self@ =~= old(self)@.insert(id, value));
        }
    }

    /// Takes what is known of a server out, to be put back changed.
    fn take(&mut self, id: NodeId) -> (res: Option<Option<Server>>)
        requires
            old(self).wf(),
        ensures
            final(self).wf(),
            final(self)@ == old(self)@.remove(id),
            match res {
                Some(server) => old(self)@.dom().contains(id) && old(self)@[id] == opt_server(
                    server,
                ) && server_ok(server),
                None => !old(self)@.dom().contains(id),
            },
    {
        let res = self.servers.remove(&id);
        proof {
            assert(self@ =~= old(self)@.remove(id));
            if res.is_some() {
                assert(server_ok(old(self).servers@[id]));
            }
        }
        res
    }

    /// Makes the server known; what was known of it is dropped.
    pub fn add_server_id(&mut self, id: NodeId)
        requires
            old(self).wf(),
        ensures
            final(self).wf(),
            final(self)@ == old(self)@.insert(id, None::<ServerView>),
    {
        self.put(id, None);
    }

    /// Takes note of what the server serves. A text or media server starts
    /// empty; a chat server is of no interest.
    pub fn add_server_type(&mut self, id: NodeId, server_type: ServerType)
        requires
            old(self).wf(),
        ensures
            final(self).wf(),
            final(self)@ == match server_type {
                ServerType::Chat => old(self)@,
                ServerType::Text => old(self)@.insert(
                    id,
                    Some(ServerView::TextServer(Seq::empty())),
                ),
                ServerType::Media => old(self)@.insert(
                    id,
                    Some(ServerView::MediaServer(Map::empty())),
                ),
            },
    {
        match server_type {
            ServerType::Chat => {},
            ServerType::Text => {
                self.put(id, Some(Server::TextServer(TextServer::new())));
            },
            ServerType::Media => {
                self.put(id, Some(Server::MediaServer(MediaServer::new())));
            },
        }
    }

    /// The media server `id`, if it is known as one.
    pub fn get_media_server(&self, id: &NodeId) -> (res: Option<&MediaServer>)
        requires
            self.wf(),
        ensures
            match res {
                Some(server) => server.wf() && lookup_server(self@, *id) == Some(
                    ServerView::MediaServer(server@),
                ),
                None => !(lookup_server(self@, *id) matches Some(ServerView::MediaServer(_))),
            },
    {
        match self.servers.get(id) {
            Some(known) => {
                assert(server_ok(self.servers@[*id]));
                match known {
                    Some(Server::MediaServer(media_server)) => Some(media_server),
                    _ => None,
                }
            },
            None => None,
        }
    }

    /// The text server `id`, if it is known as one.
    fn get_text_server(&self, id: &NodeId) -> (res: Option<&TextServer>)
        requires
            self.wf(),
        ensures
            match res {
                Some(server) => server.wf() && lookup_server(self@, *id) == Some(
                    ServerView::TextServer(server@),
                ),
                None => !(lookup_server(self@, *id) matches Some(ServerView::TextServer(_))),
            },
    {
        match self.servers.get(id) {
            Some(known) => {
                assert(server_ok(self.servers@[*id]));
                match known {
                    Some(Server::TextServer(text_server)) => Some(text_server),
                    _ => None,
                }
            },
            None => None,
        }
    }

    /// The content of a media of a media server, if it is at hand.
    pub fn get_media_file(&self, node_id: NodeId, media_id: &MediaId) -> (res: Option<MediaContent>)
        requires
            self.wf(),
        ensures
            opt_text(res) == media_at(self@, node_id, media_id@),
    {
        match self.get_media_server(&node_id) {
            Some(media_server) => match media_server.get_media(media_id) {
                Some(content) => Some(content.clone()),
                None => None,
            },
            None => None,
        }
    }

    /// The file with its media, where it refers to some and all are at hand.
    fn try_complete(&self, text_id: &FileId, file: &Option<TextFile>) -> (res: Option<CompleteFile>)
        requires
            self.wf(),
        ensures
            match res {
                Some(c) => completed(self@, text_id@, opt_file(*file)) == Some(c@),
                None => completed(self@, text_id@, opt_file(*file)).is_none(),
            },
    {
        let text_file = match file {
            Some(text_file) => text_file,
            None => {
                return None;
            },
        };
        assert(opt_file(*file) == Some(text_file@));
        let ghost servers = self@;
        let ghost refs = text_file@.media_ref;
        let media_ref = text_file.get_media_ref();
        let mut builded_file = CompleteFile::new_building(
            text_id.clone(),
            text_file.get_content(),
            text_file.get_media_number(),
        );
        let mut k: usize = 0;
        proof {
            assert(ref_views(media_ref@).len() == media_ref@.len());
            assert(refs.take(0) =~= Seq::<(NodeId, Seq<char>)>::empty());
        }
        while k < media_ref.len()
            invariant
                self.wf(),
                servers == self@,
                refs == text_file@.media_ref,
                opt_file(*file) == Some(text_file@),
                refs == ref_views(media_ref@),
                refs.len() == media_ref@.len(),
                k <= media_ref@.len(),
                refs.len() > 0 ==> k < refs.len(),
                builded_file.wf(),
                builded_file@ == (CompleteFileView {
                    file_id: text_id@,
                    text_content: text_file@.content,
                    media_number: refs.len() as usize,
                    media_index: k,
                    media_files: media_found(servers, refs.take(k as int)),
                }),
                media_found(servers, refs.take(k as int)).len() == k,
            decreases media_ref@.len() - k,
        {
            proof {
                assert(refs.take(k + 1).drop_last() =~= refs.take(k as int));
                assert(refs.take(k + 1).last() == refs[k as int]);
                assert(refs[k as int] == (media_ref@[k as int].0, media_ref@[k as int].1@));
            }
            let ghost upto = refs.take(k + 1);
            let ghost found = media_found(servers, refs.take(k as int));
            match self.get_media_file(media_ref[k].0, &media_ref[k].1) {
                Some(media_content) => {
                    proof {
                        assert(media_at(servers, upto.last().0, upto.last().1) == Some(
                            media_content@,
                        ));
                        assert(media_found(servers, upto) == found.push(media_content@));
                    }
                    if builded_file.add_media(media_content) {
                        proof {
                            assert(k + 1 == refs.len());
                            assert(upto =~= refs);
                        }
                        return Some(builded_file);
                    }
                },
                None => {
                    proof {
                        assert(media_at(servers, upto.last().0, upto.last().1).is_none());
                        assert(media_found(servers, upto) == found);
                        lemma_media_found_short(servers, refs, k + 1);
                    }
                    return None;
                },
            }
            k = k + 1;
        }
        proof {
            assert(refs.take(refs.len() as int) =~= refs);
        }
        None
    }

    /// The first file, in the order in which the files of a server became
    /// known, of the text server with the smallest identifier that has a
    /// file which refers to media all of which are at hand.
    pub fn check_for_complete_file(&self) -> (res: Option<CompleteFile>)
        requires
            self.wf(),
        ensures
            match res {
                Some(c) => first_completed_among(self@) == Some(c@),
                None => first_completed_among(self@).is_none(),
            },
    {
        let ghost servers = self@;
        let mut i: usize = 0;
        while i < 256
            invariant
                self.wf(),
                servers == self@,
                i <= 256,
                first_completed_among(servers) == first_completed_from(servers, i as nat),
            decreases 256 - i,
        {
            let id: NodeId = i as u8;
            if let Some(text_server) = self.get_text_server(&id) {
                let files = text_server.get_files();
                let ghost views = text_server@;
                let mut j: usize = 0;
                assert(views.skip(0) =~= views);
                while j < files.len()
                    invariant
                        self.wf(),
                        servers == self@,
                        i < 256,
                        id == i as u8,
                        lookup_server(servers, id) == Some(ServerView::TextServer(views)),
                        first_completed_among(servers) == first_completed_from(servers, i as nat),
                        files@.len() == views.len(),
                        forall|a: int|
                            0 <= a < files@.len() ==> (#[trigger] files@[a]).0@ == views[a].0
                                && opt_file(files@[a].1) == views[a].1,
                        j <= files@.len(),
                        first_completed(servers, views) == first_completed(
                            servers,
                            views.skip(j as int),
                        ),
                    decreases files@.len() - j,
                {
                    proof {
                        assert(views.skip(j as int).drop_first() =~= views.skip(j + 1));
                        assert(views.skip(j as int)[0] == views[j as int]);
                    }
                    match self.try_complete(&files[j].0, &files[j].1) {
                        Some(complete) => {
                            proof {
                                assert(completed(servers, views[j as int].0, views[j as int].1)
                                    == Some(complete@));
                                assert(first_completed(servers, views) == Some(complete@));
                            }
                            return Some(complete);
                        },
                        None => {
                            proof {
                                assert(completed(
                                    servers,
                                    views[j as int].0,
                                    views[j as int].1,
                                ).is_none());
                            }
                        },
                    }
                    j = j + 1;
                }
                proof {
                    assert(first_completed(servers, views).is_none());
                }
            }
            i = i + 1;
        }
        None
    }

    /// Makes the files of a text server known.
    pub fn add_files_list(&mut self, files_ids: Vec<FileId>, server_id: NodeId)
        requires
            old(self).wf(),
        ensures
            final(self).wf(),
            final(self)@ == match lookup_server(old(self)@, server_id) {
                Some(ServerView::TextServer(files)) => old(self)@.insert(
                    server_id,
                    Some(ServerView::TextServer(put_all_empty(files, texts(files_ids@)))),
                ),
                _ => old(self)@,
            },
    {
        match self.take(server_id) {
            Some(Some(Server::TextServer(text_server))) => {
                let mut text_server = text_server;
                text_server.bulk_add_file_id(files_ids);
                self.put(server_id, Some(Server::TextServer(text_server)));
                proof {
                    assert(old(self)@.remove(server_id).insert(server_id, self@[server_id])
                        =~= old(self)@.insert(server_id, self@[server_id]));
                }
            },
            Some(other) => {
                self.put(server_id, other);
                proof {
                    assert(self@ =~= old(self)@);
                }
            },
            None => {
                proof {
                    assert(self@ =~= old(self)@);
                }
            },
        }
    }

    /// Holds a media of a media server and looks for a file that is now
    /// complete. Nothing is done where the source is not known as a media
    /// server.
    pub fn add_media_file(&mut self, media_id: MediaId, content: MediaContent, source_id: NodeId) -> (res:
        Option<CompleteFile>)
        requires
            old(self).wf(),
        ensures
            final(self).wf(),
            match lookup_server(old(self)@, source_id) {
                Some(ServerView::MediaServer(media)) => {
                    &&& final(self)@ == old(self)@.insert(
                        source_id,
                        Some(ServerView::MediaServer(media.insert(media_id@, Some(content@)))),
                    )
                    &&& match res {
                        Some(c) => first_completed_among(final(self)@) == Some(c@),
                        None => first_completed_among(final(self)@).is_none(),
                    }
                },
                _ => final(self)@ == old(self)@ && res.is_none(),
            },
    {
        match self.take(source_id) {
            Some(Some(Server::MediaServer(media_server))) => {
                let mut media_server = media_server;
                media_server.add_media(media_id, content);
                self.put(source_id, Some(Server::MediaServer(media_server)));
                proof {
                    assert(old(self)@.remove(source_id).insert(source_id, self@[source_id])
                        =~= old(self)@.insert(source_id, self@[source_id]));
                }
                self.check_for_complete_file()
            },
            Some(other) => {
                self.put(source_id, other);
                proof {
                    assert(self@ =~= old(self)@);
                }
                None
            },
            None => {
                proof {
                    assert(self@ =~= old(self)@);
                }
                None
            },
        }
    }

    /// Holds the given text file of a text server and tells whether the
    /// source is known as one.
    pub fn put_text_file(&mut self, file_id: FileId, file: TextFile, source_id: NodeId) -> (res: bool)
        requires
            old(self).wf(),
        ensures
            final(self).wf(),
            match lookup_server(old(self)@, source_id) {
                Some(ServerView::TextServer(files)) => res && final(self)@ == old(self)@.insert(
                    source_id,
                    Some(ServerView::TextServer(put_entry(files, file_id@, Some(file@)))),
                ),
                _ => !res && final(self)@ == old(self)@,
            },
    {
        match self.take(source_id) {
            Some(Some(Server::TextServer(text_server))) => {
                let mut text_server = text_server;
                text_server.put_file(file_id, file);
                self.put(source_id, Some(Server::TextServer(text_server)));
                proof {
                    assert(old(self)@.remove(source_id).insert(source_id, self@[source_id])
                        =~= old(self)@.insert(source_id, self@[source_id]));
                }
                true
            },
            Some(other) => {
                self.put(source_id, other);
                proof {
                    assert(self@ =~= old(self)@);
                }
                false
            },
            None => {
                proof {
                    assert(self@ =~= old(self)@);
                }
                false
            },
        }
    }

    /// Holds a text file of a text server. Returns the file at once where it
    /// refers to no media, else the media that are to be fetched; an empty
    /// list where the source is not known as a text server.
    pub fn add_text_file(&mut self, size: usize, content: String, file_id: FileId, source_id: NodeId) -> (res:
        Result<CompleteFile, Vec<(NodeId, MediaId)>>)
        requires
            old(self).wf(),
        ensures
            final(self).wf(),
            match lookup_server(old(self)@, source_id) {
                Some(ServerView::TextServer(files)) => {
                    &&& final(self)@ == old(self)@.insert(
                        source_id,
                        Some(
                            ServerView::TextServer(
                                put_entry(
                                    files,
                                    file_id@,
                                    Some(
                                        TextFileView {
                                            content: content@,
                                            size,
                                            media_ref: Seq::empty(),
                                        },
                                    ),
                                ),
                            ),
                        ),
                    )
                    &&& res.is_ok()
                    &&& res.unwrap()@ == (CompleteFileView {
                        file_id: file_id@,
                        text_content: content@,
                        media_number: 0,
                        media_index: 0,
                        media_files: Seq::empty(),
                    })
                },
                _ => final(self)@ == old(self)@ && res.is_err() && res.unwrap_err()@.len() == 0,
            },
    {
        match self.take(source_id) {
            Some(Some(Server::TextServer(text_server))) => {
                let mut text_server = text_server;
                let media_ref = text_server.add_file(file_id.clone(), content.clone(), size);
                self.put(source_id, Some(Server::TextServer(text_server)));
                proof {
                    assert(old(self)@.remove(source_id).insert(source_id, self@[source_id])
                        =~= old(self)@.insert(source_id, self@[source_id]));
                }
                if media_ref.len() == 0 {
                    return Ok(CompleteFile::new_without_media(file_id, content));
                }
                Err(media_ref)
            },
            Some(other) => {
                self.put(source_id, other);
                proof {
                    assert(self@ =~= old(self)@);
                }
                Err(Vec::new())
            },
            None => {
                proof {
                    assert(self@ =~= old(self)@);
                }
                Err(Vec::new())
            },
        }
    }
}

} // verus!
