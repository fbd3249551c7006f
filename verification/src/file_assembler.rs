//! The resolver that joins a text file with the media it refers to.
//!
//! A text file that refers to media waits here until each of its references
//! has a media file in the store; then the text and its media leave together.

use vstd::prelude::*;
use crate::assoc::{
    as_map, has_key, keys_unique, lemma_empty, lemma_lookup, lemma_push, lemma_remove,
    lemma_update,
};
use crate::markup::{
    document_order, in_text_order, key_views, media_keys, pair_views, parsed_roots, refs_in,
    search_ref, FileKey,
};
use crate::packet::NodeId;

verus! {

pub type MediaContent = String;

/// What adding a file led to.
#[derive(Debug, PartialEq, Eq)]
pub enum AddedFileReturn {
    /// A text file with each media file it refers to, in the order of their
    /// first mention: `(media_id, content)`.
    CompleteFile {
        source_id: NodeId,
        file_id: String,
        content: String,
        media_content: Vec<(String, MediaContent)>,
    },
    /// The media that are still to be fetched.
    RefToMedia(Vec<FileKey>),
}

pub enum AddedFileReturnView {
    CompleteFile {
        source_id: NodeId,
        file_id: Seq<char>,
        content: Seq<char>,
        media_content: Seq<(Seq<char>, Seq<char>)>,
    },
    RefToMedia(Seq<(Option<NodeId>, Seq<char>)>),
}

impl View for AddedFileReturn {
    type V = AddedFileReturnView;

    open spec fn view(&self) -> AddedFileReturnView {
        match self {
            AddedFileReturn::CompleteFile {
                source_id,
                file_id,
                content,
                media_content,
            } => AddedFileReturnView::CompleteFile {
                source_id: *source_id,
                file_id: file_id@,
                content: content@,
                media_content: pair_views(media_content@),
            },
            AddedFileReturn::RefToMedia(keys) => AddedFileReturnView::RefToMedia(key_views(keys@)),
        }
    }
}

/// A text file that waits for its media.
pub struct PendingTextView {
    pub source_id: NodeId,
    pub file_id: Seq<char>,
    pub content: Seq<char>,
    pub size: usize,
    /// The identifiers of the media it refers to, in document order.
    pub media_ref: Seq<Seq<char>>,
}

pub struct FileAssemblerView {
    /// The waiting text files, in the order in which they came.
    pub texts: Seq<PendingTextView>,
    /// The media files in the store, by identifier.
    pub media: Map<Seq<char>, Seq<char>>,
}

/// The identifiers of the keys, in order.
pub open spec fn key_ids(keys: Seq<(Option<NodeId>, Seq<char>)>) -> Seq<Seq<char>> {
    Seq::new(keys.len(), |i: int| keys[i].1)
}

/// The keys that a search for references found; none where it found no
/// answer.
pub open spec fn found_keys(found: Option<Vec<FileKey>>) -> Seq<(Option<NodeId>, Seq<char>)> {
    match found {
        Some(keys) => key_views(keys@),
        None => Seq::empty(),
    }
}

/// The views of the keys that came back, if any came back.
pub open spec fn returned_keys(res: Option<Vec<FileKey>>) -> Option<
    Seq<(Option<NodeId>, Seq<char>)>,
> {
    match res {
        Some(keys) => Some(key_views(keys@)),
        None => None,
    }
}

/// What taking a text file in does where the search for its references gave
/// `keys`: where there are none, nothing is stored and nothing comes back;
/// else the file waits for the media that the keys name, in the place of a
/// waiting file with its source and name or at the end, and the keys come
/// back. The media store is as it was.
pub open spec fn text_added(
    before: FileAssemblerView,
    after: FileAssemblerView,
    res: Option<Seq<(Option<NodeId>, Seq<char>)>>,
    source_id: NodeId,
    file_id: Seq<char>,
    content: Seq<char>,
    size: usize,
    keys: Seq<(Option<NodeId>, Seq<char>)>,
) -> bool {
    &&& after.media == before.media
    &&& if keys.len() == 0 {
        res.is_none() && after.texts == before.texts
    } else {
        res == Some(keys) && after.texts == put_text(
            before.texts,
            PendingTextView { source_id, file_id, content, size, media_ref: key_ids(keys) },
        )
    }
}

/// The media identifiers that a text refers to; none where the parser has no
/// document for it, or none whose elements come as they start in the text.
pub open spec fn extracted_refs(content: Seq<char>) -> Seq<Seq<char>> {
    match parsed_roots(content, "src"@) {
        Some(roots) => if in_text_order(document_order(roots)) {
            refs_in(document_order(roots), "img"@)
        } else {
            Seq::empty()
        },
        None => Seq::empty(),
    }
}

/// Each of the references has its media file.
pub open spec fn satisfied(refs: Seq<Seq<char>>, media: Map<Seq<char>, Seq<char>>) -> bool {
    forall|i: int| 0 <= i < refs.len() ==> media.dom().contains(#[trigger] refs[i])
}

/// The position of the first text file whose references all have their
/// media; the number of text files where there is none.
pub open spec fn first_satisfied(
    texts: Seq<PendingTextView>,
    media: Map<Seq<char>, Seq<char>>,
) -> int
    decreases texts.len(),
{
    if texts.len() == 0 {
        0
    } else if satisfied(texts[0].media_ref, media) {
        0
    } else {
        1 + first_satisfied(texts.drop_first(), media)
    }
}

/// The media files of the references, each once, in the order of their first
/// mention.
pub open spec fn bundle_media(refs: Seq<Seq<char>>, media: Map<Seq<char>, Seq<char>>) -> Seq<
    (Seq<char>, Seq<char>),
>
    decreases refs.len(),
{
    if refs.len() == 0 {
        Seq::empty()
    } else if refs.drop_last().contains(refs.last()) {
        bundle_media(refs.drop_last(), media)
    } else {
        bundle_media(refs.drop_last(), media).push((refs.last(), media[refs.last()]))
    }
}

/// The store without the media files of the references.
pub open spec fn without_refs(media: Map<Seq<char>, Seq<char>>, refs: Seq<Seq<char>>) -> Map<
    Seq<char>,
    Seq<char>,
> {
    Map::new(|k: Seq<char>| media.dom().contains(k) && !refs.contains(k), |k: Seq<char>| media[k])
}

/// Text file `i` is the one from `source_id` named `file_id`.
pub open spec fn is_text(t: PendingTextView, source_id: NodeId, file_id: Seq<char>) -> bool {
    t.source_id == source_id && t.file_id == file_id
}

/// No two waiting text files have the same source and name.
pub open spec fn texts_unique(texts: Seq<PendingTextView>) -> bool {
    forall|i: int, j: int|
        0 <= i < texts.len() && 0 <= j < texts.len() && i != j ==> !is_text(
            texts[i],
            texts[j].source_id,
            texts[j].file_id,
        )
}

/// Some waiting text file is the one from `source_id` named `file_id`.
pub open spec fn has_text(texts: Seq<PendingTextView>, source_id: NodeId, file_id: Seq<char>) -> bool {
    exists|i: int| 0 <= i < texts.len() && is_text(#[trigger] texts[i], source_id, file_id)
}

/// The waiting text files with `t` put in: in the place of the one with its
/// source and name, or at the end.
pub open spec fn put_text(texts: Seq<PendingTextView>, t: PendingTextView) -> Seq<PendingTextView> {
    if has_text(texts, t.source_id, t.file_id) {
        texts.update(
            choose|i: int| 0 <= i < texts.len() && is_text(#[trigger] texts[i], t.source_id, t.file_id),
            t,
        )
    } else {
        texts.push(t)
    }
}

struct TextFile {
    content: String,
    size: usize,
    media_ref: Vec<FileKey>,
}

impl TextFile {
    /// The text file and the keys of the media that are to be fetched for
    /// it, where the search for its references gave `found`.
    fn new_textfile(content: String, size: usize, found: Option<Vec<FileKey>>) -> (res: (
        Self,
        Vec<FileKey>,
    ))
        ensures
            res.0.content@ == content@,
            res.0.size == size,
            key_views(res.0.media_ref@) == found_keys(found),
            key_views(res.1@) == found_keys(found),
    {
        let media_ref: Vec<FileKey> = match found {
            Some(keys) => keys,
            None => {
                let keys: Vec<FileKey> = Vec::new();
                assert(key_views(keys@) =~= Seq::<(Option<NodeId>, Seq<char>)>::empty());
                keys
            },
        };
        let mut copy: Vec<FileKey> = Vec::new();
        let mut i: usize = 0;
        while i < media_ref.len()
            invariant
                i <= media_ref@.len(),
                copy@.len() == i,
                forall|j: int|
                    0 <= j < i ==> (#[trigger] copy@[j]).0 == media_ref@[j].0 && copy@[j].1@
                        == media_ref@[j].1@,
            decreases media_ref@.len() - i,
        {
            copy.push((media_ref[i].0, media_ref[i].1.clone()));
            i = i + 1;
        }
        assert(key_views(copy@) =~= key_views(media_ref@));
        (TextFile { content, size, media_ref }, copy)
    }
}

struct PendingText {
    source_id: NodeId,
    file_id: String,
    file: TextFile,
}

impl PendingText {
    spec fn refs(&self) -> Seq<Seq<char>> {
        Seq::new(self.file.media_ref@.len(), |i: int| self.file.media_ref@[i].1@)
    }

    spec fn view(&self) -> PendingTextView {
        PendingTextView {
            source_id: self.source_id,
            file_id: self.file_id@,
            content: self.file.content@,
            size: self.file.size,
            media_ref: self.refs(),
        }
    }
}

pub struct FileAssembler {
    texts: Vec<PendingText>,
    media: Vec<(String, MediaContent)>,
}

proof fn lemma_first_satisfied_bounds(texts: Seq<PendingTextView>, media: Map<Seq<char>, Seq<char>>)
    ensures
        0 <= first_satisfied(texts, media) <= texts.len(),
    decreases texts.len(),
{
    if texts.len() > 0 && !satisfied(texts[0].media_ref, media) {
        lemma_first_satisfied_bounds(texts.drop_first(), media);
    }
}

/// What the position of the first satisfied text file means.
pub proof fn lemma_first_satisfied(texts: Seq<PendingTextView>, media: Map<Seq<char>, Seq<char>>)
    ensures
        0 <= first_satisfied(texts, media) <= texts.len(),
        forall|j: int|
            0 <= j < first_satisfied(texts, media) ==> !satisfied(
                (#[trigger] texts[j]).media_ref,
                media,
            ),
        first_satisfied(texts, media) < texts.len() ==> satisfied(
            texts[first_satisfied(texts, media)].media_ref,
            media,
        ),
    decreases texts.len(),
{
    if texts.len() > 0 && !satisfied(texts[0].media_ref, media) {
        let rest = texts.drop_first();
        lemma_first_satisfied(rest, media);
        assert forall|j: int| 0 <= j < first_satisfied(texts, media) implies !satisfied(
            (#[trigger] texts[j]).media_ref,
            media,
        ) by {
            if j > 0 {
                assert(texts[j] == rest[j - 1]);
            }
        }
        if first_satisfied(texts, media) < texts.len() {
            assert(texts[first_satisfied(texts, media)] == rest[first_satisfied(rest, media)]);
        }
    }
}

/// Where the text files before position `i` are not satisfied, the first
/// satisfied one is at `i` if that one is, and further on if it is not.
proof fn lemma_first_satisfied_from(
    texts: Seq<PendingTextView>,
    media: Map<Seq<char>, Seq<char>>,
    i: int,
)
    requires
        0 <= i <= texts.len(),
        forall|j: int| 0 <= j < i ==> !satisfied((#[trigger] texts[j]).media_ref, media),
    ensures
        first_satisfied(texts, media) >= i,
        i < texts.len() && satisfied(texts[i].media_ref, media) ==> first_satisfied(texts, media)
            == i,
    decreases texts.len(),
{
    if i > 0 {
        let rest = texts.drop_first();
        assert(!satisfied(texts[0].media_ref, media));
        assert forall|j: int| 0 <= j < i - 1 implies !satisfied(
            (#[trigger] rest[j]).media_ref,
            media,
        ) by {
            assert(rest[j] == texts[j + 1]);
        }
        lemma_first_satisfied_from(rest, media, i - 1);
        if i < texts.len() {
            assert(rest[i - 1] == texts[i]);
        }
    } else {
        lemma_first_satisfied_bounds(texts, media);
    }
}

proof fn lemma_take_contains(refs: Seq<Seq<char>>, k: int, q: Seq<char>)
    requires
        0 <= k < refs.len(),
    ensures
        refs.take(k + 1).contains(q) <==> (refs.take(k).contains(q) || q == refs[k]),
{
    let more = refs.take(k + 1);
    let less = refs.take(k);
    if more.contains(q) {
        let w = choose|w: int| 0 <= w < more.len() && more[w] == q;
        if w < k {
            assert(less[w] == q);
        }
    }
    if less.contains(q) {
        let w = choose|w: int| 0 <= w < less.len() && less[w] == q;
        assert(more[w] == q);
    }
    if q == refs[k] {
        assert(more[k] == q);
    }
}

impl FileAssembler {
    closed spec fn media_pairs(&self) -> Seq<(Seq<char>, Seq<char>)> {
        pair_views(self.media@)
    }

    closed spec fn text_views(&self) -> Seq<PendingTextView> {
        Seq::new(self.texts@.len(), |i: int| self.texts@[i].view())
    }

    /// No media identifier is stored twice, no text file waits twice, and a
    /// waiting text file refers to some media.
    pub closed spec fn wf(&self) -> bool {
        &&& keys_unique(self.media_pairs())
        &&& texts_unique(self.text_views())
        &&& forall|i: int|
            0 <= i < self.texts@.len() ==> (#[trigger] self.texts@[i]).file.media_ref@.len() > 0
    }

    pub closed spec fn view(&self) -> FileAssemblerView {
        FileAssemblerView { texts: self.text_views(), media: as_map(self.media_pairs()) }
    }

    /// What well-formedness says of the view.
    pub proof fn lemma_wf(&self)
        requires
            self.wf(),
        ensures
            texts_unique(self@.texts),
            forall|i: int|
                0 <= i < self@.texts.len() ==> (#[trigger] self@.texts[i]).media_ref.len() > 0,
    {
        assert forall|i: int| 0 <= i < self@.texts.len() implies (
        #[trigger] self@.texts[i]).media_ref.len() > 0 by {
            assert(self.texts@[i].file.media_ref@.len() > 0);
        }
    }

    pub fn new() -> (res: Self)
        ensures
            res.wf(),
            res@.texts == Seq::<PendingTextView>::empty(),
            res@.media == Map::<Seq<char>, Seq<char>>::empty(),
    {
        let res = FileAssembler { texts: Vec::new(), media: Vec::new() };
        proof {
            lemma_empty::<Seq<char>, Seq<char>>();
            assert(res.media_pairs() =~= Seq::empty());
            assert(res.text_views() =~= Seq::empty());
        }
        res
    }

    fn find_text(&self, source_id: NodeId, file_id: &String) -> (res: Option<usize>)
        requires
            self.wf(),
        ensures
            match res {
                Some(i) => i < self.texts@.len() && is_text(
                    self.text_views()[i as int],
                    source_id,
                    file_id@,
                ),
                None => !has_text(self.text_views(), source_id, file_id@),
            },
    {
        let mut i: usize = 0;
        while i < self.texts.len()
            invariant
                i <= self.texts@.len(),
                forall|j: int|
                    0 <= j < i ==> !is_text(#[trigger] self.text_views()[j], source_id, file_id@),
            decreases self.texts@.len() - i,
        {
            if self.texts[i].source_id == source_id && self.texts[i].file_id == *file_id {
                return Some(i);
            }
            i = i + 1;
        }
        None
    }

    fn find_media(&self, media_id: &String) -> (res: Option<usize>)
        requires
            keys_unique(self.media_pairs()),
        ensures
            match res {
                Some(i) => i < self.media@.len() && self.media_pairs()[i as int].0 == media_id@
                    && self@.media.dom().contains(media_id@) && self@.media[media_id@]
                    == self.media@[i as int].1@,
                None => !has_key(self.media_pairs(), media_id@) && !self@.media.dom().contains(
                    media_id@,
                ),
            },
    {
        let mut i: usize = 0;
        while i < self.media.len()
            invariant
                keys_unique(self.media_pairs()),
                i <= self.media@.len(),
                forall|j: int| 0 <= j < i ==> (#[trigger] self.media_pairs()[j]).0 != media_id@,
            decreases self.media@.len() - i,
        {
            if self.media[i].0 == *media_id {
                proof {
                    lemma_lookup(self.media_pairs(), i as int);
                }
                return Some(i);
            }
            i = i + 1;
        }
        None
    }

    /// Takes a text file in. The text is searched for references to media.
    /// Where it has none, or the parser has no document for it, nothing is
    /// stored and the caller has the whole file already; else the file waits,
    /// and the keys of the media to fetch come back.
    pub fn add_textfile(&mut self, source_id: NodeId, file_id: &str, content: String, size: usize) -> (res:
        Option<Vec<FileKey>>)
        requires
            old(self).wf(),
        ensures
            final(self).wf(),
            text_added(
                old(self)@,
                final(self)@,
                returned_keys(res),
                source_id,
                file_id@,
                content@,
                size,
                media_keys(extracted_refs(content@)),
            ) || text_added(
                old(self)@,
                final(self)@,
                returned_keys(res),
                source_id,
                file_id@,
                content@,
                size,
                Seq::empty(),
            ),
    {
        let found = search_ref(content.as_str());
        self.add_textfile_found(source_id, file_id, content, size, found)
    }

    /// Takes a text file in for which the search for references gave
    /// `found`. Of a key only the identifier is read: a media file has no
    /// source.
    pub fn add_textfile_found(
        &mut self,
        source_id: NodeId,
        file_id: &str,
        content: String,
        size: usize,
        found: Option<Vec<FileKey>>,
    ) -> (res: Option<Vec<FileKey>>)
        requires
            old(self).wf(),
        ensures
            final(self).wf(),
            text_added(
                old(self)@,
                final(self)@,
                returned_keys(res),
                source_id,
                file_id@,
                content@,
                size,
                found_keys(found),
            ),
    {
        let ghost keys = found_keys(found);
        let (text_file, media_ref) = TextFile::new_textfile(content, size, found);
        proof {
            assert(key_views(media_ref@).len() == media_ref@.len());
            assert(key_views(text_file.media_ref@).len() == text_file.media_ref@.len());
            assert forall|i: int| 0 <= i < keys.len() implies text_file.media_ref@[i].1@
                == #[trigger] key_ids(keys)[i] by {
                assert(key_views(text_file.media_ref@)[i] == keys[i]);
            }
        }
        if media_ref.len() == 0 {
            return None;
        }
        let name = file_id.to_owned();
        let found = self.find_text(source_id, &name);
        let entry = PendingText { source_id, file_id: name, file: text_file };
        let ghost before = self.text_views();
        let ghost t = entry.view();
        proof {
            assert(t.media_ref =~= key_ids(keys));
        }
        match found {
            Some(i) => {
                proof {
                    let c = choose|c: int|
                        0 <= c < before.len() && is_text(#[trigger] before[c], source_id, file_id@);
                    assert(is_text(before[i as int], source_id, file_id@));
                    assert(c == i);
                }
                self.texts[i] = entry;
                proof {
                    assert(self.text_views() =~= before.update(i as int, t));
                    assert forall|a: int, b: int|
                        0 <= a < self.text_views().len() && 0 <= b < self.text_views().len() && a
                            != b implies !is_text(
                        self.text_views()[a],
                        self.text_views()[b].source_id,
                        self.text_views()[b].file_id,
                    ) by {
                        assert(!is_text(before[a], before[b].source_id, before[b].file_id));
                    }
                    assert forall|a: int| 0 <= a < self.texts@.len() implies (
                    #[trigger] self.texts@[a]).file.media_ref@.len() > 0 by {
                        if a != i {
                            assert(old(self).texts@[a].file.media_ref@.len() > 0);
                        }
                    }
                }
            },
            None => {
                self.texts.push(entry);
                proof {
                    assert(self.text_views() =~= before.push(t));
                    assert forall|a: int, b: int|
                        0 <= a < self.text_views().len() && 0 <= b < self.text_views().len() && a
                            != b implies !is_text(
                        self.text_views()[a],
                        self.text_views()[b].source_id,
                        self.text_views()[b].file_id,
                    ) by {
                        if a < before.len() && b < before.len() {
                            assert(!is_text(before[a], before[b].source_id, before[b].file_id));
                        } else if a < before.len() {
                            assert(!is_text(before[a], source_id, file_id@));
                        } else {
                            assert(!is_text(before[b], source_id, file_id@));
                        }
                    }
                    assert forall|a: int| 0 <= a < self.texts@.len() implies (
                    #[trigger] self.texts@[a]).file.media_ref@.len() > 0 by {
                        if a < before.len() {
                            assert(old(self).texts@[a].file.media_ref@.len() > 0);
                        }
                    }
                }
            },
        }
        Some(media_ref)
    }

    /// Whether each media file that text file `i` refers to is in the store.
    fn text_is_satisfied(&self, i: usize) -> (res: bool)
        requires
            self.wf(),
            i < self.texts@.len(),
        ensures
            res == satisfied(self@.texts[i as int].media_ref, self@.media),
    {
        let refs = &self.texts[i].file.media_ref;
        let ghost want = self@.texts[i as int].media_ref;
        let mut k: usize = 0;
        while k < refs.len()
            invariant
                self.wf(),
                i < self.texts@.len(),
                refs == &self.texts@[i as int].file.media_ref,
                want == self@.texts[i as int].media_ref,
                k <= refs@.len(),
                forall|j: int| 0 <= j < k ==> self@.media.dom().contains(#[trigger] want[j]),
            decreases refs@.len() - k,
        {
            if self.find_media(&refs[k].1).is_none() {
                assert(!self@.media.dom().contains(want[k as int]));
                return false;
            }
            k = k + 1;
        }
        true
    }

    /// Stores a media file, then looks for the first waiting text file whose
    /// media are all there. That file leaves the store together with the
    /// media it refers to.
    pub fn add_media_file(&mut self, file_id: &str, content: String) -> (res: Option<
        AddedFileReturn,
    >)
        requires
            old(self).wf(),
        ensures
            final(self).wf(),
            ({
                let media = old(self)@.media.insert(file_id@, content@);
                let texts = old(self)@.texts;
                let at = first_satisfied(texts, media);
                if at < texts.len() {
                    &&& res.is_some()
                    &&& res.unwrap()@ == (AddedFileReturnView::CompleteFile {
                        source_id: texts[at].source_id,
                        file_id: texts[at].file_id,
                        content: texts[at].content,
                        media_content: bundle_media(texts[at].media_ref, media),
                    })
                    &&& final(self)@.texts == texts.remove(at)
                    &&& final(self)@.media == without_refs(media, texts[at].media_ref)
                    &&& !has_text(final(self)@.texts, texts[at].source_id, texts[at].file_id)
                } else {
                    &&& res.is_none()
                    &&& final(self)@.texts == texts
                    &&& final(self)@.media == media
                }
            }),
    {
        let name = file_id.to_owned();
        let ghost value = content@;
        let ghost pairs_before = self.media_pairs();
        let found = self.find_media(&name);
        match found {
            Some(i) => {
                self.media[i] = (name, content);
                proof {
                    lemma_update(pairs_before, i as int, value);
                    assert(self.media_pairs() =~= pairs_before.update(
                        i as int,
                        (pairs_before[i as int].0, value),
                    ));
                }
            },
            None => {
                self.media.push((name, content));
                proof {
                    lemma_push(pairs_before, file_id@, value);
                    assert(self.media_pairs() =~= pairs_before.push((file_id@, value)));
                }
            },
        }
        proof {
            assert forall|a: int| 0 <= a < self.texts@.len() implies (
            #[trigger] self.texts@[a]).file.media_ref@.len() > 0 by {
                assert(old(self).texts@[a].file.media_ref@.len() > 0);
            }
        }
        self.check_and_take_complete_file()
    }

    /// Looks for the first waiting text file whose media are all in the
    /// store and takes it out together with them.
    fn check_and_take_complete_file(&mut self) -> (res: Option<AddedFileReturn>)
        requires
            old(self).wf(),
        ensures
            final(self).wf(),
            ({
                let media = old(self)@.media;
                let texts = old(self)@.texts;
                let at = first_satisfied(texts, media);
                if at < texts.len() {
                    &&& res.is_some()
                    &&& res.unwrap()@ == (AddedFileReturnView::CompleteFile {
                        source_id: texts[at].source_id,
                        file_id: texts[at].file_id,
                        content: texts[at].content,
                        media_content: bundle_media(texts[at].media_ref, media),
                    })
                    &&& final(self)@.texts == texts.remove(at)
                    &&& final(self)@.media == without_refs(media, texts[at].media_ref)
                    &&& !has_text(final(self)@.texts, texts[at].source_id, texts[at].file_id)
                } else {
                    &&& res.is_none()
                    &&& final(self)@.texts == texts
                    &&& final(self)@.media == media
                }
            }),
    {
        let ghost media = self@.media;
        let ghost texts = self@.texts;
        let mut at: usize = 0;
        let mut hit = false;
        while at < self.texts.len() && !hit
            invariant
                self.wf(),
                self@.media == media,
                self@.texts == texts,
                at <= self.texts@.len(),
                forall|j: int| 0 <= j < at ==> !satisfied((#[trigger] texts[j]).media_ref, media),
                hit ==> at < self.texts@.len() && satisfied(texts[at as int].media_ref, media),
            decreases self.texts@.len() - at + if hit {
                0int
            } else {
                1int
            },
        {
            if self.text_is_satisfied(at) {
                hit = true;
            } else {
                at = at + 1;
            }
        }
        proof {
            lemma_first_satisfied_from(texts, media, at as int);
        }
        if !hit {
            return None;
        }
        Some(self.take_complete_file(at))
    }

    /// Takes the waiting text file at position `at` out of the store,
    /// together with the media it refers to.
    fn take_complete_file(&mut self, at: usize) -> (res: AddedFileReturn)
        requires
            old(self).wf(),
            at < old(self)@.texts.len(),
            satisfied(old(self)@.texts[at as int].media_ref, old(self)@.media),
        ensures
            final(self).wf(),
            res@ == (AddedFileReturnView::CompleteFile {
                source_id: old(self)@.texts[at as int].source_id,
                file_id: old(self)@.texts[at as int].file_id,
                content: old(self)@.texts[at as int].content,
                media_content: bundle_media(
                    old(self)@.texts[at as int].media_ref,
                    old(self)@.media,
                ),
            }),
            final(self)@.texts == old(self)@.texts.remove(at as int),
            final(self)@.media == without_refs(
                old(self)@.media,
                old(self)@.texts[at as int].media_ref,
            ),
            !has_text(
                final(self)@.texts,
                old(self)@.texts[at as int].source_id,
                old(self)@.texts[at as int].file_id,
            ),
    {
        let ghost media = self@.media;
        let ghost texts = self@.texts;
        let entry = self.texts.remove(at);
        let ghost refs = texts[at as int].media_ref;
        proof {
            assert(self.text_views() =~= texts.remove(at as int));
            assert(entry.view() == texts[at as int]);
            assert(entry.refs() == refs);
            assert forall|a: int, b: int|
                0 <= a < self.text_views().len() && 0 <= b < self.text_views().len() && a
                    != b implies !is_text(
                self.text_views()[a],
                self.text_views()[b].source_id,
                self.text_views()[b].file_id,
            ) by {
                let a2 = if a < at { a } else { a + 1 };
                let b2 = if b < at { b } else { b + 1 };
                assert(!is_text(texts[a2], texts[b2].source_id, texts[b2].file_id));
            }
            assert(!has_text(self.text_views(), entry.source_id, entry.file_id@)) by {
                if has_text(self.text_views(), entry.source_id, entry.file_id@) {
                    let a = choose|a: int|
                        0 <= a < self.text_views().len() && is_text(
                            #[trigger] self.text_views()[a],
                            entry.source_id,
                            entry.file_id@,
                        );
                    let a2 = if a < at { a } else { a + 1 };
                    assert(self.text_views()[a] == texts[a2]);
                    assert(!is_text(texts[a2], texts[at as int].source_id, texts[at as int].file_id));
                }
            }
        }
        let PendingText { source_id, file_id: text_id, file } = entry;
        let TextFile { content: text, size: _, media_ref } = file;
        let mut media_content: Vec<(String, MediaContent)> = Vec::new();
        let mut k: usize = 0;
        proof {
            assert(refs.take(0) =~= Seq::<Seq<char>>::empty());
            assert(pair_views(media_content@) =~= Seq::<(Seq<char>, Seq<char>)>::empty());
            assert(self@.media =~= without_refs(media, refs.take(0)));
        }
        while k < media_ref.len()
            invariant
                k <= media_ref@.len(),
                refs.len() == media_ref@.len(),
                forall|j: int| 0 <= j < refs.len() ==> #[trigger] refs[j] == media_ref@[j].1@,
                satisfied(refs, media),
                keys_unique(self.media_pairs()),
                self.text_views() == texts.remove(at as int),
                self.texts@.len() == texts.len() - 1,
                forall|a: int|
                    0 <= a < self.texts@.len() ==> (#[trigger] self.texts@[a]).file.media_ref@.len()
                        > 0,
                self@.media == without_refs(media, refs.take(k as int)),
                pair_views(media_content@) == bundle_media(refs.take(k as int), media),
            decreases media_ref@.len() - k,
        {
            let ghost r = refs[k as int];
            let ghost seen = refs.take(k as int);
            let ghost pairs = self.media_pairs();
            let ghost out = pair_views(media_content@);
            proof {
                assert(refs.take(k + 1).drop_last() =~= seen);
                assert(refs.take(k + 1).last() == r);
                assert(media.dom().contains(refs[k as int]));
            }
            match self.find_media(&media_ref[k].1) {
                Some(i) => {
                    let taken = self.media.remove(i);
                    proof {
                        lemma_remove(pairs, i as int);
                        assert(self.media_pairs() =~= pairs.remove(i as int));
                        assert(!seen.contains(r));
                        assert(self@.media =~= without_refs(media, refs.take(k + 1))) by {
                            assert forall|q: Seq<char>|
                                refs.take(k + 1).contains(q) <==> (seen.contains(q) || q == r) by {
                                lemma_take_contains(refs, k as int, q);
                            }
                        }
                    }
                    media_content.push(taken);
                    proof {
                        assert(pair_views(media_content@) =~= out.push((r, media[r])));
                    }
                },
                None => {
                    proof {
                        assert(seen.contains(r));
                        assert(self@.media =~= without_refs(media, refs.take(k + 1))) by {
                            assert forall|q: Seq<char>|
                                refs.take(k + 1).contains(q) <==> seen.contains(q) by {
                                lemma_take_contains(refs, k as int, q);
                            }
                        }
                    }
                },
            }
            k = k + 1;
        }
        proof {
            assert(refs.take(refs.len() as int) =~= refs);
        }
        AddedFileReturn::CompleteFile { source_id, file_id: text_id, content: text, media_content }
    }
}

} // verus!
