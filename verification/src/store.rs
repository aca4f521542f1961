//! The day's record store, modelled as the ordered list of persisted
//! items. Identities are assigned on insertion, as the embedded database
//! assigns row ids: the next free id, restarting from one when the day's
//! items are removed. The bulk edit replaces the whole day atomically:
//! nothing is removed unless the edited document parsed.
use vstd::prelude::*;
use vstd::string::*;
use crate::codec::normalize_desc;
use crate::codec::parse;
use crate::codec::spec_parse;
use crate::codec::ParseError;
use crate::todo::desc_text;
use crate::todo::Todo;
use crate::todo::TodoModel;

verus! {

/// A parsed item as the store persists it: the given identity, and an
/// empty description normalized to absent.
pub open spec fn persisted(m: TodoModel, id: int) -> TodoModel {
    TodoModel { id: Some(id), description: normalize_desc(desc_text(m.description)), ..m }
}

/// The day's store of TODO items.
pub struct TodoStore {
    items: Vec<Todo>,
    next_id: i32,
}

impl View for TodoStore {
    type V = Seq<TodoModel>;

    closed spec fn view(&self) -> Seq<TodoModel> {
        self.items@.map_values(|t: Todo| t@)
    }
}

/// Which items a listing asks for.
#[derive(Clone, Copy, Debug, PartialEq, Eq)]
pub enum Selection {
    All,
    Done,
    Undone,
}

/// Whether one item falls under a selection.
pub open spec fn selected(m: TodoModel, sel: Selection) -> bool {
    match sel {
        Selection::All => true,
        Selection::Done => m.done,
        Selection::Undone => !m.done,
    }
}

/// The items of `s` that fall under `sel`, in order.
pub open spec fn select_from(s: Seq<TodoModel>, sel: Selection) -> Seq<TodoModel>
    decreases s.len(),
{
    if s.len() == 0 {
        Seq::empty()
    } else {
        let rest = select_from(s.drop_last(), sel);
        if selected(s.last(), sel) {
            rest.push(s.last())
        } else {
            rest
        }
    }
}

impl TodoStore {
    /// Every persisted item carries an identity below the next free one,
    /// and no two carry the same.
    pub closed spec fn wf(&self) -> bool {
        &&& 1 <= self.next_id
        &&& forall|i: int|
            0 <= i < self@.len() ==> ((#[trigger] self@[i].id) matches Some(n) && 1 <= n
                < self.next_id)
        &&& forall|i: int, j: int| 0 <= i < j < self@.len() ==> self@[i].id != self@[j].id
    }

    pub closed spec fn spec_next_id(&self) -> int {
        self.next_id as int
    }

    /// An empty store.
    pub fn new() -> (s: TodoStore)
        ensures
            s.wf(),
            s@ == Seq::<TodoModel>::empty(),
            s.spec_next_id() == 1,
    {
        let s = TodoStore { items: Vec::new(), next_id: 1 };
        proof {
            assert(s@ =~= Seq::<TodoModel>::empty());
        }
        s
    }

    /// Persists one item: it is appended with the next free identity,
    /// an empty description stored as absent, and the given id returned.
    pub fn add(&mut self, todo: &Todo) -> (id: i32)
        requires
            old(self).wf(),
            old(self).spec_next_id() < i32::MAX,
        ensures
            final(self).wf(),
            id as int == old(self).spec_next_id(),
            final(self).spec_next_id() == old(self).spec_next_id() + 1,
            final(self)@ == old(self)@.push(persisted(todo@, id as int)),
    {
        let id = self.next_id;
        let description = match &todo.description {
            Some(d) => {
                if d.as_str().unicode_len() == 0 {
                    None
                } else {
                    Some(d.clone())
                }
            },
            None => None,
        };
        let stored = Todo { id: Some(id), title: todo.title.clone(), description, done: todo.done };
        proof {
            assert(stored@ == persisted(todo@, id as int));
        }
        self.items.push(stored);
        self.next_id = id + 1;
        proof {
            assert(self@ =~= old(self)@.push(persisted(todo@, id as int)));
        }
        id
    }

    /// All of the day's items, in insertion order.
    pub fn get_all(&self) -> (r: Vec<Todo>)
        ensures
            r@.map_values(|t: Todo| t@) == self@,
    {
        let n = self.items.len();
        let mut r: Vec<Todo> = Vec::new();
        let mut i: usize = 0;
        while i < n
            invariant
                i <= n,
                n == self.items@.len(),
                r@.len() == i,
                forall|j: int| 0 <= j < i ==> #[trigger] r@[j]@ == self.items@[j]@,
            decreases n - i,
        {
            r.push(self.items[i].duplicate());
            i = i + 1;
        }
        proof {
            assert(r@.map_values(|t: Todo| t@) =~= self@);
        }
        r
    }

    /// The day's items that fall under the selection, in order.
    pub fn get_selected(&self, sel: Selection) -> (r: Vec<Todo>)
        ensures
            r@.map_values(|t: Todo| t@) == select_from(self@, sel),
    {
        let n = self.items.len();
        let mut r: Vec<Todo> = Vec::new();
        let mut i: usize = 0;
        proof {
            assert(r@.map_values(|t: Todo| t@) =~= select_from(self@.take(0), sel));
        }
        while i < n
            invariant
                i <= n,
                n == self.items@.len(),
                r@.map_values(|t: Todo| t@) == select_from(self@.take(i as int), sel),
            decreases n - i,
        {
            let ghost pre = r@.map_values(|t: Todo| t@);
            let keep = match sel {
                Selection::All => true,
                Selection::Done => self.items[i].done,
                Selection::Undone => !self.items[i].done,
            };
            if keep {
                r.push(self.items[i].duplicate());
            }
            i = i + 1;
            proof {
                assert(self@.take(i as int).drop_last() =~= self@.take(i - 1));
                assert(self@.take(i as int).last() == self@[i - 1]);
                if keep {
                    assert(r@.map_values(|t: Todo| t@) =~= pre.push(self@[i - 1]));
                } else {
                    assert(r@.map_values(|t: Todo| t@) =~= pre);
                }
            }
        }
        proof {
            assert(self@.take(n as int) =~= self@);
        }
        r
    }

    /// The day's done items.
    pub fn get_all_done(&self) -> (r: Vec<Todo>)
        ensures
            r@.map_values(|t: Todo| t@) == select_from(self@, Selection::Done),
    {
        self.get_selected(Selection::Done)
    }

    /// The day's undone items.
    pub fn get_all_undone(&self) -> (r: Vec<Todo>)
        ensures
            r@.map_values(|t: Todo| t@) == select_from(self@, Selection::Undone),
    {
        self.get_selected(Selection::Undone)
    }

    /// Sets the completion flag of every item with the given identity —
    /// at most one, by well-formedness — and changes nothing else.
    fn mark(&mut self, id: i32, value: bool)
        requires
            old(self).wf(),
        ensures
            final(self).wf(),
            final(self).spec_next_id() == old(self).spec_next_id(),
            final(self)@.len() == old(self)@.len(),
            forall|j: int|
                0 <= j < old(self)@.len() ==> #[trigger] final(self)@[j] == (if old(
                    self,
                )@[j].id == Some(id as int) {
                    TodoModel { done: value, ..old(self)@[j] }
                } else {
                    old(self)@[j]
                }),
    {
        let n = self.items.len();
        let mut out: Vec<Todo> = Vec::new();
        let mut i: usize = 0;
        while i < n
            invariant
                i <= n,
                n == self.items@.len(),
                self.items@ == old(self).items@,
                self.next_id == old(self).next_id,
                out@.len() == i,
                forall|j: int|
                    0 <= j < i ==> #[trigger] out@[j]@ == (if old(self)@[j].id == Some(
                        id as int,
                    ) {
                        TodoModel { done: value, ..old(self)@[j] }
                    } else {
                        old(self)@[j]
                    }),
            decreases n - i,
        {
            let hit = match self.items[i].id {
                Some(n2) => n2 == id,
                None => false,
            };
            let mut item = self.items[i].duplicate();
            if hit {
                item.done = value;
            }
            out.push(item);
            i = i + 1;
        }
        self.items = out;
    }

    /// Marks the item with the given identity done.
    pub fn done(&mut self, id: i32)
        requires
            old(self).wf(),
        ensures
            final(self).wf(),
            final(self).spec_next_id() == old(self).spec_next_id(),
            final(self)@.len() == old(self)@.len(),
            forall|j: int|
                0 <= j < old(self)@.len() ==> #[trigger] final(self)@[j] == (if old(
                    self,
                )@[j].id == Some(id as int) {
                    TodoModel { done: true, ..old(self)@[j] }
                } else {
                    old(self)@[j]
                }),
    {
        self.mark(id, true);
    }

    /// Marks the item with the given identity undone.
    pub fn undone(&mut self, id: i32)
        requires
            old(self).wf(),
        ensures
            final(self).wf(),
            final(self).spec_next_id() == old(self).spec_next_id(),
            final(self)@.len() == old(self)@.len(),
            forall|j: int|
                0 <= j < old(self)@.len() ==> #[trigger] final(self)@[j] == (if old(
                    self,
                )@[j].id == Some(id as int) {
                    TodoModel { done: false, ..old(self)@[j] }
                } else {
                    old(self)@[j]
                }),
    {
        self.mark(id, false);
    }

    /// Removes the whole day; identities start over from one, as the
    /// embedded database restarts row ids once no row is left.
    pub fn remove_all(&mut self)
        ensures
            final(self).wf(),
            final(self)@ == Seq::<TodoModel>::empty(),
            final(self).spec_next_id() == 1,
    {
        self.items = Vec::new();
        self.next_id = 1;
        proof {
            assert(self@ =~= Seq::<TodoModel>::empty());
        }
    }

    /// Law: edit-session safety. The bulk edit replaces the whole day
    /// only after the edited document has parsed: on success the store
    /// holds exactly the parsed items, freshly persisted in order; on a
    /// malformed document the store is exactly what it was before the
    /// session opened.
    pub fn apply_edit(&mut self, document: &str) -> (r: Result<(), ParseError>)
        requires
            old(self).wf(),
            document@.len() + 2 < i32::MAX,
        ensures
            final(self).wf(),
            match r {
                Ok(()) => spec_parse(document@) is Ok && (spec_parse(document@) matches Ok(
                    ms,
                ) ==> final(self)@.len() == ms.len() && (forall|j: int|
                    0 <= j < ms.len() ==> final(self)@[j] == persisted(#[trigger] ms[j], j + 1))),
                Err(e) => spec_parse(document@) == Err::<Seq<TodoModel>, ParseError>(e)
                    && *final(self) == *old(self),
            },
    {
        match parse(document) {
            Err(e) => Err(e),
            Ok(v) => {
                let ghost ms = v@.map_values(|t: Todo| t@);
                proof {
                    crate::codec::lemma_parse_count(document@);
                }
                self.remove_all();
                let n = v.len();
                let mut i: usize = 0;
                while i < n
                    invariant
                        self.wf(),
                        n == v@.len(),
                        n + 1 < i32::MAX,
                        ms == v@.map_values(|t: Todo| t@),
                        i <= n,
                        self.spec_next_id() == i + 1,
                        self@.len() == i,
                        forall|j: int|
                            0 <= j < i ==> self@[j] == persisted(#[trigger] ms[j], j + 1),
                    decreases n - i,
                {
                    self.add(&v[i]);
                    i = i + 1;
                }
                Ok(())
            },
        }
    }
}

} // verus!
