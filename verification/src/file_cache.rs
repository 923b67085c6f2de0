//! Notes fetched from the server, kept in memory by id.
use vstd::prelude::*;
use crate::commands::views;
use crate::store::KeyedStore;
use crate::text::concat;
use crate::tree::{
    ids_after_adds, leaves_filed, parent_links, root_after_adds, Tree, Treeable,
};

verus! {

/// A note: its id and its text.
#[derive(Debug, Clone)]
pub struct NoteTakerFile {
    pub id: String,
    pub contents: String,
}

impl NoteTakerFile {
    /// A note with the same id and text.
    pub fn duplicate(&self) -> (r: NoteTakerFile)
        ensures
            r.id@ == self.id@,
            r.contents@ == self.contents@,
    {
        NoteTakerFile { id: self.id.clone(), contents: self.contents.clone() }
    }
}

/// The notes already fetched, by id.
#[derive(Debug)]
pub struct FileCache {
    files: KeyedStore<NoteTakerFile>,
}

impl FileCache {
    /// The cache is well formed.
    pub closed spec fn wf(&self) -> bool {
        self.files.wf()
    }

    /// The cached notes, by id.
    pub closed spec fn files_view(&self) -> Map<Seq<char>, NoteTakerFile> {
        self.files.view()
    }

    /// An empty cache.
    pub fn new() -> (r: Self)
        ensures
            r.wf(),
            r.files_view() == Map::<Seq<char>, NoteTakerFile>::empty(),
    {
        FileCache { files: KeyedStore::new() }
    }

    /// The cached note with id `id`, if it was fetched before; otherwise the
    /// note has to be fetched.
    pub fn get_cached(&self, id: &str) -> (r: Option<NoteTakerFile>)
        requires
            self.wf(),
        ensures
            r is Some <==> self.files_view().contains_key(id@),
            r matches Some(f) ==> f.id@ == self.files_view()[id@].id@ && f.contents@ == self.files_view()[id@].contents@,
    {
        match self.files.get(id) {
            Some(f) => Some(f.duplicate()),
            None => None,
        }
    }

    /// What `get_file` answers once the note `id` was fetched: the note,
    /// which the cache keeps from then on, or the error, explained.
    pub fn on_fetched(&mut self, id: &str, fetched: Result<String, String>) -> (r: Result<NoteTakerFile, String>)
        requires
            old(self).wf(),
        ensures
            final(self).wf(),
            match fetched {
                Ok(note) => {
                    &&& r matches Ok(f) && f.id@ == id@ && f.contents@ == note@
                    &&& final(self).files_view().dom() == old(self).files_view().dom().insert(id@)
                    &&& final(self).files_view()[id@].id@ == id@
                    &&& final(self).files_view()[id@].contents@ == note@
                    &&& forall|k: Seq<char>| k != id@ && #[trigger] old(self).files_view().contains_key(k)
                        ==> final(self).files_view()[k] == old(self).files_view()[k]
                },
                Err(err) => {
                    &&& r matches Err(m) && m@ == "Could not get file in InMemoryFileCache: "@ + err@
                    &&& final(self).files_view() == old(self).files_view()
                },
            },
    {
        match fetched {
            Ok(note) => {
                let note_taker_file = NoteTakerFile { id: String::from_str(id), contents: note };
                let key = note_taker_file.id.clone();
                self.files.insert(key, note_taker_file.duplicate());
                Ok(note_taker_file)
            },
            Err(err) => Err(concat("Could not get file in InMemoryFileCache: ", err.as_str())),
        }
    }
}

impl Treeable for NoteTakerFile {
    /// A note is filed under its id.
    fn get_tree_id(&self) -> (r: String)
        ensures
            r@ == self.id@,
    {
        self.id.clone()
    }
}

/// The tree of the notes at the addresses `hrefs`: each note, with no text
/// yet, filed under its address in turn, as `Tree::add_node` does with a
/// note whose id is the address.
pub fn notes_tree(hrefs: &Vec<String>) -> (r: Tree<NoteTakerFile>)
    ensures
        r.wf(),
        r.sep() == '/',
        r.root().model() == root_after_adds(views(hrefs@), '/'),
        r.data_view().dom() == ids_after_adds(views(hrefs@), '/').dom(),
        forall|k: Seq<char>| #[trigger] r.data_view().contains_key(k) ==> {
            &&& r.data_view()[k].id@ == ids_after_adds(views(hrefs@), '/')[k]
            &&& r.data_view()[k].contents@ == Seq::<char>::empty()
        },
        parent_links(r.root().model()),
        leaves_filed(r.root().model(), r.data_view().dom()),
{
    let ghost vs = views(hrefs@);
    let mut tree = Tree::<NoteTakerFile>::new();
    let mut i: usize = 0;
    assert(vs.take(0) =~= Seq::<Seq<char>>::empty());
    while i < hrefs.len()
        invariant
            i <= hrefs.len(),
            vs == views(hrefs@),
            tree.wf(),
            tree.sep() == '/',
            tree.root().model() == root_after_adds(vs.take(i as int), '/'),
            tree.data_view().dom() == ids_after_adds(vs.take(i as int), '/').dom(),
            forall|k: Seq<char>| #[trigger] tree.data_view().contains_key(k) ==> {
                &&& tree.data_view()[k].id@ == ids_after_adds(vs.take(i as int), '/')[k]
                &&& tree.data_view()[k].contents@ == Seq::<char>::empty()
            },
            parent_links(tree.root().model()),
            leaves_filed(tree.root().model(), tree.data_view().dom()),
        decreases hrefs.len() - i,
    {
        let ghost prev = vs.take(i as int);
        let ghost next = vs.take(i + 1);
        assert(next.drop_last() =~= prev);
        assert(next.last() == hrefs@[i as int]@);
        let note = NoteTakerFile { id: hrefs[i].clone(), contents: String::new() };
        tree.add_node_with_id(hrefs[i].clone(), note);
        i = i + 1;
    }
    assert(vs.take(hrefs.len() as int) =~= vs);
    tree
}

} // verus!
