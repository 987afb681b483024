//! The pager: a bounded cache of pages over the image of the backing file.
//! Pages are read from the image on first use and written back on request;
//! none is ever evicted.

use crate::bytes::{read_range, splice, write_range, zero_bytes, zeroed};
use crate::error::Error;
use crate::page::{
    header_of, internal_of, leaf_of, lemma_layout, NodeType, Page, INTERNAL_CELL_CAPACITY,
    LEAF_MAX_CELLS, PAGE_SIZE,
};
use crate::text::{
    bracketed_line, decimal, indentation, lemma_texts_concat, lemma_texts_push, numbered_line,
    texts,
};
use vstd::prelude::*;

verus! {

/// The number of slots in the page cache.
pub const MAX_PAGES: usize = 100;

/// A cache of pages over the bytes of the backing file.
pub struct Pager {
    /// The bytes of the backing file.
    pub file: Vec<u8>,
    /// The number of pages in use.
    pub num_pages: usize,
    /// The cache: one slot for each page number.
    pub pages: Vec<Option<Page>>,
}

/// `file` grown with zero bytes, if need be, to hold the page `page_num`.
pub open spec fn grown(file: Seq<u8>, page_num: int) -> Seq<u8> {
    if file.len() < (page_num + 1) * PAGE_SIZE {
        file + zero_bytes(((page_num + 1) * PAGE_SIZE - file.len()) as nat)
    } else {
        file
    }
}

impl Pager {
    /// The cache has its slots, every resident page has the size of a page,
    /// and the file is a whole number of pages long.
    pub open spec fn wf(&self) -> bool {
        &&& self.pages@.len() == MAX_PAGES
        &&& self.file@.len() % (PAGE_SIZE as nat) == 0
        &&& forall|n: int|
            0 <= n < MAX_PAGES ==> ((#[trigger] self.pages@[n]) matches Some(p) ==> p.wf())
    }

    /// The number of whole pages in the file.
    pub open spec fn file_pages(&self) -> int {
        self.file@.len() as int / PAGE_SIZE as int
    }

    /// The page `n` is in the cache.
    pub open spec fn resident(&self, n: int) -> bool {
        0 <= n < self.pages@.len() && self.pages@[n] is Some
    }

    /// The bytes of the page `n`: those in the cache if the page is resident,
    /// else those in the file, else zeros.
    pub open spec fn page(&self, n: int) -> Seq<u8> {
        if self.resident(n) {
            self.pages@[n]->0@
        } else if 0 <= n < self.file_pages() {
            self.file@.subrange(n * PAGE_SIZE, (n + 1) * PAGE_SIZE)
        } else {
            zero_bytes(PAGE_SIZE as nat)
        }
    }

    /// A pager over the bytes of a file, with nothing in its cache. Fails
    /// when the file is not a whole number of pages long.
    pub fn new(file: Vec<u8>) -> (res: Result<Pager, Error>)
        ensures
            file@.len() % (PAGE_SIZE as nat) != 0 ==> res == Err::<Pager, Error>(Error::CorruptFile),
            file@.len() % (PAGE_SIZE as nat) == 0 ==> res is Ok && ({
                let pager = res->Ok_0;
                &&& pager.wf()
                &&& pager.file@ == file@
                &&& pager.num_pages == file@.len() / (PAGE_SIZE as nat)
                &&& forall|n: int| !pager.resident(n)
            }),
    {
        let file_length = file.len();
        let num_pages = file_length / PAGE_SIZE;
        if file_length % PAGE_SIZE != 0 {
            return Err(Error::CorruptFile);
        }
        let mut pages: Vec<Option<Page>> = Vec::with_capacity(MAX_PAGES);
        let mut i: usize = 0;
        while i < MAX_PAGES
            invariant
                i <= MAX_PAGES,
                pages@.len() == i,
                forall|n: int| 0 <= n < i ==> pages@[n] is None,
            decreases MAX_PAGES - i,
        {
            pages.push(None);
            i += 1;
        }
        Ok(Pager { file, num_pages, pages })
    }

    /// The number of the page that the next allocation gets. New pages go
    /// onto the end of the file: nothing is recycled.
    pub fn get_unused_page_num(&self) -> (page_num: usize)
        ensures
            page_num == self.num_pages,
    {
        self.num_pages
    }

    /// A deep copy of the page `page_num` if it is resident.
    pub fn copy_page(&self, page_num: usize) -> (res: Result<Option<Page>, Error>)
        requires
            self.wf(),
        ensures
            page_num >= MAX_PAGES ==> res == Err::<Option<Page>, Error>(
                Error::PageOutOfBounds(page_num),
            ),
            page_num < MAX_PAGES ==> res is Ok && ({
                let copy = res->Ok_0;
                &&& copy is Some <==> self.resident(page_num as int)
                &&& copy matches Some(p) ==> p@ == self.page(page_num as int)
            }),
    {
        if page_num >= MAX_PAGES {
            return Err(Error::PageOutOfBounds(page_num));
        }
        match &self.pages[page_num] {
            Some(p) => Ok(Some(p.clone())),
            None => Ok(None),
        }
    }

    /// The page `page_num`, brought into the cache if it is not there: read
    /// from the file if the file holds it, else zeroed.
    pub fn get_page(&mut self, page_num: usize) -> (res: Result<&mut Page, Error>)
        requires
            old(self).wf(),
        ensures
            page_num >= MAX_PAGES ==> res is Err && res->Err_0 == Error::PageOutOfBounds(page_num)
                && *final(self) == *old(self),
            page_num < MAX_PAGES ==> res is Ok && ({
                let page = res->Ok_0;
                &&& page.wf()
                &&& page@ == old(self).page(page_num as int)
                &&& final(self).file == old(self).file
                &&& final(self).num_pages == old(self).num_pages_after_get(page_num as int)
                &&& final(self).pages@ == old(self).pages@.update(
                    page_num as int,
                    Some(*final(page)),
                )
            }),
    {
        if page_num >= MAX_PAGES {
            return Err(Error::PageOutOfBounds(page_num));
        }
        if self.pages[page_num].is_none() {
            // cache miss
            let file_pages = self.file.len() / PAGE_SIZE;
            if page_num < file_pages {
                let buf = read_range(self.file.as_slice(), page_num * PAGE_SIZE, PAGE_SIZE);
                self.pages[page_num] = Some(Page(buf));
                if page_num >= self.num_pages {
                    self.num_pages = page_num + 1;
                }
            } else {
                self.pages[page_num] = Some(Page(zeroed(PAGE_SIZE)));
            }
        }
        match &mut self.pages[page_num] {
            Some(page) => Ok(page),
            None => Err(Error::PageOutOfBounds(page_num)),
        }
    }

    /// Writes the page `page_num` back into the file, which grows to hold
    /// it, and drops it from the cache. A page that is not resident is left
    /// alone. The bytes of every page stay what they were.
    pub fn flush(&mut self, page_num: usize)
        requires
            old(self).wf(),
            page_num < MAX_PAGES,
        ensures
            final(self).wf(),
            final(self).num_pages == old(self).num_pages,
            final(self).pages@ == old(self).pages@.update(page_num as int, None),
            old(self).resident(page_num as int) ==> final(self).file@ == splice(
                grown(old(self).file@, page_num as int),
                page_num * PAGE_SIZE,
                old(self).page(page_num as int),
            ),
            !old(self).resident(page_num as int) ==> final(self).file@ == old(self).file@,
            final(self).file@.len() >= old(self).file@.len(),
            forall|m: int| final(self).page(m) == old(self).page(m),
    {
        if self.pages[page_num].is_none() {
            assert(self.pages@ =~= old(self).pages@.update(page_num as int, None));
            return ;
        }
        let start = page_num * PAGE_SIZE;
        let end = start + PAGE_SIZE;
        if self.file.len() < end {
            self.file.resize(end, 0);
            assert(self.file@ =~= grown(old(self).file@, page_num as int));
        }
        match &self.pages[page_num] {
            Some(page) => {
                write_range(&mut self.file, start, page.0.as_slice());
            },
            None => {},
        }
        self.pages[page_num] = None;
        proof {
            assert forall|m: int| self.page(m) == old(self).page(m) by {
                if m == page_num {
                    assert(self.page(m) =~= old(self).page(m));
                } else if old(self).resident(m) {
                } else if 0 <= m < old(self).file_pages() {
                    assert(self.page(m) =~= old(self).page(m));
                } else {
                    assert(self.page(m) =~= old(self).page(m));
                }
            }
        }
    }

    /// The number of pages in use after `get_page(n)`: reading a page of the
    /// file that lies beyond the pages in use brings it into use.
    pub open spec fn num_pages_after_get(&self, n: int) -> usize {
        if !self.resident(n) && n < self.file_pages() && n >= self.num_pages {
            (n + 1) as usize
        } else {
            self.num_pages
        }
    }
}

/// The lines that show the leaf with the bytes `bytes` at the depth `level`:
/// one for the leaf with its number of cells, and below it one for each key.
pub open spec fn leaf_lines(bytes: Seq<u8>, level: nat) -> Seq<Seq<char>> {
    seq![
        indentation(level) + "- leaf (size "@ + decimal(leaf_of(bytes).num_cells as nat) + ")"@,
    ] + Seq::new(
        leaf_of(bytes).num_cells as nat,
        |i: int| indentation(level + 1) + "- key "@ + decimal(leaf_of(bytes).keys[i] as nat),
    )
}

impl Pager {
    /// The lines that show the first `k` children of the internal node on
    /// the page `page_num` at the depth `level`, each followed by the line
    /// of its key.
    pub open spec fn children_lines(&self, page_num: int, k: nat, level: nat) -> Seq<Seq<char>>
        decreases k,
    {
        if k == 0 {
            Seq::empty()
        } else {
            let node = internal_of(self.page(page_num));
            self.children_lines(page_num, (k - 1) as nat, level) + leaf_lines(
                self.page(node.children[k - 1] as int),
                level,
            ) + seq![indentation(level) + "- key "@ + decimal(node.keys[k - 1] as nat)]
        }
    }

    /// The lines that show the tree below the page `page_num` at the depth
    /// `level`: a leaf, or an internal node over leaves. An internal node
    /// has a line with its number of keys; below it come its children, with
    /// the line of a key between each two.
    pub open spec fn lines(&self, page_num: int, level: nat) -> Seq<Seq<char>> {
        let bytes = self.page(page_num);
        let node = internal_of(bytes);
        if header_of(bytes).node_type == NodeType::Leaf {
            leaf_lines(bytes, level)
        } else {
            seq![indentation(level) + "- internal (size "@ + decimal(node.num_keys as nat) + ")"@]
                + self.children_lines(page_num, node.num_keys as nat, level + 1) + leaf_lines(
                self.page(node.right_child as int),
                level + 1,
            )
        }
    }

    /// The page `page_num` can be shown: it is a leaf, or an internal node
    /// over leaves, each with no more cells in use than a page has room for.
    pub open spec fn printable(&self, page_num: int) -> bool {
        let bytes = self.page(page_num);
        let node = internal_of(bytes);
        &&& self.wf()
        &&& self.file_pages() <= self.num_pages
        &&& 0 <= page_num < MAX_PAGES
        &&& header_of(bytes).node_type == NodeType::Leaf ==> leaf_of(bytes).num_cells
            <= LEAF_MAX_CELLS
        &&& header_of(bytes).node_type == NodeType::Internal ==> {
            &&& node.num_keys <= INTERNAL_CELL_CAPACITY
            &&& forall|i: int|
                0 <= i <= node.num_keys ==> {
                    let child = self.page(#[trigger] node.child(i) as int);
                    &&& node.child(i) < MAX_PAGES
                    &&& header_of(child).node_type == NodeType::Leaf
                    &&& leaf_of(child).num_cells <= LEAF_MAX_CELLS
                }
        }
    }

    /// The lines of a tree do not depend on what is in the cache.
    pub proof fn lemma_lines_same(&self, other: &Pager, page_num: int, level: nat)
        requires
            forall|n: int| #[trigger] self.page(n) == other.page(n),
        ensures
            self.lines(page_num, level) == other.lines(page_num, level),
            forall|k: nat|
                self.children_lines(page_num, k, level) == other.children_lines(
                    page_num,
                    k,
                    level,
                ),
    {
        assert forall|k: nat|
            self.children_lines(page_num, k, level) == other.children_lines(
                page_num,
                k,
                level,
            ) by {
            self.lemma_children_lines_same(other, page_num, k, level);
        }
        assert(self.page(page_num) == other.page(page_num));
        let node = internal_of(self.page(page_num));
        self.lemma_children_lines_same(other, page_num, node.num_keys as nat, level + 1);
        assert(self.page(node.right_child as int) == other.page(node.right_child as int));
    }

    /// The lines of the children do not depend on what is in the cache.
    pub proof fn lemma_children_lines_same(&self, other: &Pager, page_num: int, k: nat, level: nat)
        requires
            forall|n: int| #[trigger] self.page(n) == other.page(n),
        ensures
            self.children_lines(page_num, k, level) == other.children_lines(page_num, k, level),
        decreases k,
    {
        if k > 0 {
            self.lemma_children_lines_same(other, page_num, (k - 1) as nat, level);
            assert(self.page(page_num) == other.page(page_num));
            let node = internal_of(self.page(page_num));
            assert(self.page(node.children[k - 1] as int) == other.page(
                node.children[k - 1] as int,
            ));
        }
    }

    /// Shows the tree below the page `page_num`, indented to the depth
    /// `indentation_level`: the lines of `lines`, from top to bottom.
    #[verifier::rlimit(40)]
    pub fn print(&mut self, page_num: usize, indentation_level: usize) -> (res: Result<
        Vec<String>,
        Error,
    >)
        requires
            old(self).printable(page_num as int),
            indentation_level + (if header_of(old(self).page(page_num as int)).node_type
                == NodeType::Internal {
                2int
            } else {
                1int
            }) <= usize::MAX,
        ensures
            final(self).wf(),
            final(self).num_pages == old(self).num_pages,
            final(self).file@ == old(self).file@,
            forall|n: int| #[trigger] final(self).page(n) == old(self).page(n),
            res is Ok,
            res matches Ok(lines) ==> texts(lines@) == old(self).lines(
                page_num as int,
                indentation_level as nat,
            ),
        decreases
                (if header_of(old(self).page(page_num as int)).node_type == NodeType::Internal {
                    1nat
                } else {
                    0nat
                }),
    {
        proof {
            lemma_layout();
        }
        let page = self.get_page(page_num)?.clone();
        let mut lines: Vec<String> = Vec::new();
        match page.get_type() {
            NodeType::Leaf => {
                let num_cells = page.get_leaf_num_cells();
                lines.push(bracketed_line(indentation_level, "- leaf (size ", num_cells, ")"));
                let mut i: usize = 0;
                while i < num_cells
                    invariant
                        page.wf(),
                        num_cells == page.leaf().num_cells,
                        num_cells <= LEAF_MAX_CELLS,
                        indentation_level + 1 <= usize::MAX,
                        i <= num_cells,
                        lines@.len() == i + 1,
                        lines@[0]@ == indentation(indentation_level as nat) + "- leaf (size "@
                            + decimal(num_cells as nat) + ")"@,
                        forall|k: int|
                            0 <= k < i ==> (#[trigger] lines@[k + 1])@ == indentation(
                                (indentation_level + 1) as nat,
                            ) + "- key "@ + decimal(page.leaf().keys[k] as nat),
                    decreases num_cells - i,
                {
                    lines.push(numbered_line(indentation_level + 1, "- key ", page.get_leaf_key(i)));
                    i += 1;
                }
                proof {
                    let shown = texts(lines@);
                    let wanted = leaf_lines(page@, indentation_level as nat);
                    assert(shown.len() == wanted.len());
                    assert forall|k: int| 0 <= k < shown.len() implies shown[k] == wanted[k] by {
                        if k > 0 {
                            assert(lines@[(k - 1) + 1]@ == wanted[k]);
                        }
                    }
                    assert(shown =~= wanted);
                }
            },
            NodeType::Internal => {
                let num_keys = page.get_internal_num_keys();
                lines.push(bracketed_line(indentation_level, "- internal (size ", num_keys, ")"));
                let ghost top = texts(lines@);
                let ghost level = (indentation_level + 1) as nat;
                let mut i: usize = 0;
                while i < num_keys
                    invariant
                        old(self).printable(page_num as int),
                        self.wf(),
                        self.num_pages == old(self).num_pages,
                        self.file@ == old(self).file@,
                        forall|n: int| #[trigger] self.page(n) == old(self).page(n),
                        page.wf(),
                        page@ == old(self).page(page_num as int),
                        header_of(page@).node_type == NodeType::Internal,
                        num_keys == page.internal().num_keys,
                        num_keys <= INTERNAL_CELL_CAPACITY,
                        indentation_level + 2 <= usize::MAX,
                        level == indentation_level + 1,
                        i <= num_keys,
                        texts(lines@) == top + old(self).children_lines(
                            page_num as int,
                            i as nat,
                            level,
                        ),
                    decreases num_keys - i,
                {
                    proof {
                        lemma_layout();
                    }
                    let child = page.get_internal_child(i)?;
                    let ghost prev = *self;
                    assert(page.internal().child(i as int) == child);
                    assert(self.page(child as int) == old(self).page(child as int));
                    let mut sub = self.print(child, indentation_level + 1)?;
                    let ghost shown = lines@;
                    let ghost below = sub@;
                    lines.append(&mut sub);
                    let line = numbered_line(indentation_level + 1, "- key ", page.get_internal_key(i));
                    lines.push(line);
                    proof {
                        assert forall|n: int| #[trigger] self.page(n) == old(self).page(n) by {
                            assert(prev.page(n) == old(self).page(n));
                        }
                        prev.lemma_lines_same(old(self), child as int, level);
                        lemma_texts_concat(shown, below);
                        lemma_texts_push(shown + below, line);
                        assert(lines@ == (shown + below).push(line));
                        assert(old(self).children_lines(page_num as int, (i + 1) as nat, level)
                            == old(self).children_lines(page_num as int, i as nat, level)
                            + leaf_lines(old(self).page(child as int), level) + seq![line@]);
                        assert(texts(lines@) =~= top + old(self).children_lines(
                            page_num as int,
                            (i + 1) as nat,
                            level,
                        ));
                    }
                    i += 1;
                }
                let right_child = page.get_internal_right_child();
                let ghost prev = *self;
                assert(page.internal().child(num_keys as int) == right_child);
                assert(self.page(right_child as int) == old(self).page(right_child as int));
                let mut sub = self.print(right_child, indentation_level + 1)?;
                let ghost shown = lines@;
                let ghost below = sub@;
                lines.append(&mut sub);
                proof {
                    assert forall|n: int| #[trigger] self.page(n) == old(self).page(n) by {
                        assert(prev.page(n) == old(self).page(n));
                    }
                    prev.lemma_lines_same(old(self), right_child as int, level);
                    lemma_texts_concat(shown, below);
                    assert(top =~= seq![
                        indentation(indentation_level as nat) + "- internal (size "@ + decimal(
                            num_keys as nat,
                        ) + ")"@,
                    ]);
                }
            },
        }
        Ok(lines)
    }
}

} // verus!
