//! The TODO item: its mathematical model and its markdown block form.
use vstd::prelude::*;
use vstd::string::*;
use crate::text::push_char;

verus! {

/// The mathematical model of one TODO item.
pub ghost struct TodoModel {
    /// The store's identity for the item; `None` before it is persisted.
    pub id: Option<int>,
    pub title: Seq<char>,
    /// `None` means absent; an empty description is never stored.
    pub description: Option<Seq<char>>,
    pub done: bool,
}

/// The same item with its identity forgotten; documents never carry ids.
pub open spec fn strip_id(m: TodoModel) -> TodoModel {
    TodoModel { id: None, ..m }
}

/// One TODO record.
pub struct Todo {
    pub id: Option<i32>,
    pub title: String,
    pub description: Option<String>,
    pub done: bool,
}

impl View for Todo {
    type V = TodoModel;

    open spec fn view(&self) -> TodoModel {
        TodoModel {
            id: match self.id {
                Some(n) => Some(n as int),
                None => None,
            },
            title: self.title@,
            description: match self.description {
                Some(d) => Some(d@),
                None => None,
            },
            done: self.done,
        }
    }
}

/// The character inside the brackets: `X` when the item is done.
pub open spec fn marker_char(done: bool) -> char {
    if done {
        'X'
    } else {
        ' '
    }
}

/// The first line of an item's block.
pub open spec fn header_of(done: bool, title: Seq<char>) -> Seq<char> {
    seq!['#', ' ', '[', marker_char(done), ']', ' '] + title
}

/// The description as written in a block: absent means empty.
pub open spec fn desc_text(d: Option<Seq<char>>) -> Seq<char> {
    match d {
        Some(s) => s,
        None => Seq::empty(),
    }
}

/// The markdown block of one item: header line, then the description.
pub open spec fn spec_block(m: TodoModel) -> Seq<char> {
    header_of(m.done, m.title) + seq!['\n'] + desc_text(m.description)
}

impl Todo {
    /// A fresh, not yet persisted item; `done` defaults to false.
    pub fn new(title: String, description: Option<String>, done: Option<bool>) -> (t: Todo)
        ensures
            t@ == (TodoModel {
                id: None,
                title: title@,
                description: match description {
                    Some(d) => Some(d@),
                    None => None,
                },
                done: done == Some(true),
            }),
    {
        Todo {
            id: None,
            title,
            description,
            done: match done {
                Some(b) => b,
                None => false,
            },
        }
    }

    /// The item's markdown block.
    pub fn to_md(&self) -> (r: String)
        ensures
            r@ == spec_block(self@),
    {
        let mut r = String::new();
        push_char(&mut r, '#');
        push_char(&mut r, ' ');
        push_char(&mut r, '[');
        if self.done {
            push_char(&mut r, 'X');
        } else {
            push_char(&mut r, ' ');
        }
        push_char(&mut r, ']');
        push_char(&mut r, ' ');
        r.append(self.title.as_str());
        push_char(&mut r, '\n');
        match &self.description {
            Some(d) => {
                r.append(d.as_str());
            },
            None => {},
        }
        proof {
            assert(r@ =~= spec_block(self@));
        }
        r
    }

    /// A copy of the item, equal in every field.
    pub fn duplicate(&self) -> (r: Todo)
        ensures
            r@ == self@,
            r.id == self.id,
    {
        Todo {
            id: self.id,
            title: self.title.clone(),
            description: match &self.description {
                Some(d) => Some(d.clone()),
                None => None,
            },
            done: self.done,
        }
    }
}

} // verus!
