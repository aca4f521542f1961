//! The action dispatcher's decisions: resolving the user's verb,
//! building the item an `add` persists, and reading an item id from the
//! user's reply. The surrounding input and output belong to the caller.
use vstd::prelude::*;
use vstd::string::*;
use crate::text::chars_of_str;
use crate::todo::Todo;
use crate::todo::TodoModel;

verus! {

/// A user-supplied verb with its parameters, still unresolved.
pub struct GenericArguments {
    pub action: String,
    pub params: Vec<String>,
}

/// The verbs the tool understands.
#[derive(Clone, Copy, Debug, PartialEq, Eq)]
pub enum Action {
    Add,
    Done,
    Undone,
    List,
    Edit,
    Help,
}

/// A character matches a lowercase keyword character, ignoring ASCII case.
pub open spec fn eq_ci(c: char, k: char) -> bool {
    c == k || c as u32 + 32 == k as u32
}

/// The whole string matches the keyword, ignoring ASCII case.
pub open spec fn matches_ci(s: Seq<char>, kw: Seq<char>) -> bool {
    s.len() == kw.len() && (forall|i: int| 0 <= i < s.len() ==> eq_ci(#[trigger] s[i], kw[i]))
}

/// Each verb's canonical spelling.
pub open spec fn action_keyword(a: Action) -> Seq<char> {
    match a {
        Action::Add => seq!['a', 'd', 'd'],
        Action::Done => seq!['d', 'o', 'n', 'e'],
        Action::Undone => seq!['u', 'n', 'd', 'o', 'n', 'e'],
        Action::List => seq!['l', 'i', 's', 't'],
        Action::Edit => seq!['e', 'd', 'i', 't'],
        Action::Help => seq!['h', 'e', 'l', 'p'],
    }
}

/// The verb a string resolves to, if any: the case-insensitive match.
pub open spec fn spec_action_of(s: Seq<char>) -> Option<Action> {
    if matches_ci(s, action_keyword(Action::Add)) {
        Some(Action::Add)
    } else if matches_ci(s, action_keyword(Action::Done)) {
        Some(Action::Done)
    } else if matches_ci(s, action_keyword(Action::Undone)) {
        Some(Action::Undone)
    } else if matches_ci(s, action_keyword(Action::List)) {
        Some(Action::List)
    } else if matches_ci(s, action_keyword(Action::Edit)) {
        Some(Action::Edit)
    } else if matches_ci(s, action_keyword(Action::Help)) {
        Some(Action::Help)
    } else {
        None
    }
}

fn eq_ci_char(c: char, k: char) -> (r: bool)
    ensures
        r == eq_ci(c, k),
{
    c == k || (c as u32) + 32 == (k as u32)
}

fn kw_matches(s: &Vec<char>, kw: &str) -> (r: bool)
    ensures
        r == matches_ci(s@, kw@),
{
    let kc = chars_of_str(kw);
    if s.len() != kc.len() {
        return false;
    }
    let n = s.len();
    let mut i: usize = 0;
    while i < n
        invariant
            n == s@.len() == kc@.len(),
            kc@ == kw@,
            i <= n,
            forall|j: int| 0 <= j < i ==> eq_ci(#[trigger] s@[j], kw@[j]),
        decreases n - i,
    {
        if !eq_ci_char(s[i], kc[i]) {
            return false;
        }
        i = i + 1;
    }
    true
}

impl Action {
    /// Resolves a verb, ignoring ASCII case; an unknown verb is `None`.
    pub fn from_str(s: &str) -> (r: Option<Action>)
        ensures
            r == spec_action_of(s@),
    {
        let chars = chars_of_str(s);
        if kw_matches(&chars, "add") {
            proof {
                reveal_strlit("add");
                assert(("add")@ =~= action_keyword(Action::Add));
            }
            Some(Action::Add)
        } else if kw_matches(&chars, "done") {
            proof {
                reveal_strlit("add");
                reveal_strlit("done");
                assert(("add")@ =~= action_keyword(Action::Add));
                assert(("done")@ =~= action_keyword(Action::Done));
            }
            Some(Action::Done)
        } else if kw_matches(&chars, "undone") {
            proof {
                reveal_strlit("add");
                reveal_strlit("done");
                reveal_strlit("undone");
                assert(("add")@ =~= action_keyword(Action::Add));
                assert(("done")@ =~= action_keyword(Action::Done));
                assert(("undone")@ =~= action_keyword(Action::Undone));
            }
            Some(Action::Undone)
        } else if kw_matches(&chars, "list") {
            proof {
                reveal_strlit("add");
                reveal_strlit("done");
                reveal_strlit("undone");
                reveal_strlit("list");
                assert(("add")@ =~= action_keyword(Action::Add));
                assert(("done")@ =~= action_keyword(Action::Done));
                assert(("undone")@ =~= action_keyword(Action::Undone));
                assert(("list")@ =~= action_keyword(Action::List));
            }
            Some(Action::List)
        } else if kw_matches(&chars, "edit") {
            proof {
                reveal_strlit("add");
                reveal_strlit("done");
                reveal_strlit("undone");
                reveal_strlit("list");
                reveal_strlit("edit");
                assert(("add")@ =~= action_keyword(Action::Add));
                assert(("done")@ =~= action_keyword(Action::Done));
                assert(("undone")@ =~= action_keyword(Action::Undone));
                assert(("list")@ =~= action_keyword(Action::List));
                assert(("edit")@ =~= action_keyword(Action::Edit));
            }
            Some(Action::Edit)
        } else if kw_matches(&chars, "help") {
            proof {
                reveal_strlit("add");
                reveal_strlit("done");
                reveal_strlit("undone");
                reveal_strlit("list");
                reveal_strlit("edit");
                reveal_strlit("help");
                assert(("add")@ =~= action_keyword(Action::Add));
                assert(("done")@ =~= action_keyword(Action::Done));
                assert(("undone")@ =~= action_keyword(Action::Undone));
                assert(("list")@ =~= action_keyword(Action::List));
                assert(("edit")@ =~= action_keyword(Action::Edit));
                assert(("help")@ =~= action_keyword(Action::Help));
            }
            Some(Action::Help)
        } else {
            proof {
                reveal_strlit("add");
                reveal_strlit("done");
                reveal_strlit("undone");
                reveal_strlit("list");
                reveal_strlit("edit");
                reveal_strlit("help");
                assert(("add")@ =~= action_keyword(Action::Add));
                assert(("done")@ =~= action_keyword(Action::Done));
                assert(("undone")@ =~= action_keyword(Action::Undone));
                assert(("list")@ =~= action_keyword(Action::List));
                assert(("edit")@ =~= action_keyword(Action::Edit));
                assert(("help")@ =~= action_keyword(Action::Help));
            }
            None
        }
    }

    /// The verb's canonical spelling, for diagnostics.
    pub fn name(&self) -> (r: &'static str)
        ensures
            r@ == action_keyword(*self),
    {
        match self {
            Action::Add => {
                let s = "add";
                proof {
                    reveal_strlit("add");
                    assert(s@ =~= action_keyword(Action::Add));
                }
                s
            },
            Action::Done => {
                let s = "done";
                proof {
                    reveal_strlit("done");
                    assert(s@ =~= action_keyword(Action::Done));
                }
                s
            },
            Action::Undone => {
                let s = "undone";
                proof {
                    reveal_strlit("undone");
                    assert(s@ =~= action_keyword(Action::Undone));
                }
                s
            },
            Action::List => {
                let s = "list";
                proof {
                    reveal_strlit("list");
                    assert(s@ =~= action_keyword(Action::List));
                }
                s
            },
            Action::Edit => {
                let s = "edit";
                proof {
                    reveal_strlit("edit");
                    assert(s@ =~= action_keyword(Action::Edit));
                }
                s
            },
            Action::Help => {
                let s = "help";
                proof {
                    reveal_strlit("help");
                    assert(s@ =~= action_keyword(Action::Help));
                }
                s
            },
        }
    }
}

/// A decimal digit.
pub open spec fn is_digit(c: char) -> bool {
    48 <= c as u32 <= 57
}

/// The numeric value of one digit.
pub open spec fn digit_val(c: char) -> int {
    c as u32 - 48
}

/// The numeric value of a digit string, most significant first.
pub open spec fn digits_val(s: Seq<char>) -> int
    decreases s.len(),
{
    if s.len() == 0 {
        0
    } else {
        digits_val(s.drop_last()) * 10 + digit_val(s.last())
    }
}

pub open spec fn all_digits(s: Seq<char>) -> bool {
    forall|i: int| 0 <= i < s.len() ==> is_digit(#[trigger] s[i])
}

pub open spec fn pow10(n: nat) -> int
    decreases n,
{
    if n == 0 {
        1
    } else {
        10 * pow10((n - 1) as nat)
    }
}

/// The signed 32-bit integer a string denotes: an optional sign, then
/// one or more digits, nothing else, and the value within range.
pub open spec fn spec_parse_i32(s: Seq<char>) -> Option<int> {
    if s.len() == 0 {
        None
    } else {
        let neg = s[0] == '-';
        let ds = if s[0] == '-' || s[0] == '+' {
            s.skip(1)
        } else {
            s
        };
        if ds.len() == 0 || !all_digits(ds) {
            None
        } else {
            let v = if neg {
                -digits_val(ds)
            } else {
                digits_val(ds)
            };
            if -2147483648 <= v && v <= 2147483647 {
                Some(v)
            } else {
                None
            }
        }
    }
}

proof fn lemma_pow10_mono(a: nat, b: nat)
    requires
        b <= a,
    ensures
        1 <= pow10(b) <= pow10(a),
    decreases a,
{
    if a == 0 {
    } else if b == a {
        lemma_pow10_mono((a - 1) as nat, (a - 1) as nat);
    } else {
        lemma_pow10_mono((a - 1) as nat, b);
    }
}

proof fn lemma_pow10_values()
    ensures
        pow10(9) == 1000000000,
        pow10(10) == 10000000000,
{
    assert(pow10(0) == 1);
    assert(pow10(1) == 10);
    assert(pow10(2) == 100);
    assert(pow10(3) == 1000);
    assert(pow10(4) == 10000);
    assert(pow10(5) == 100000);
    assert(pow10(6) == 1000000);
    assert(pow10(7) == 10000000);
    assert(pow10(8) == 100000000);
    assert(pow10(9) == 1000000000);
    assert(pow10(10) == 10000000000);
}

proof fn lemma_digits_val_lower(s: Seq<char>)
    requires
        all_digits(s),
        s.len() >= 1,
        digit_val(s[0]) >= 1,
    ensures
        digits_val(s) >= pow10((s.len() - 1) as nat),
    decreases s.len(),
{
    if s.len() == 1 {
        assert(s.last() == s[0]);
        assert(s.drop_last().len() == 0);
        assert(digits_val(s.drop_last()) == 0);
        assert(pow10(0) == 1);
    } else {
        let front = s.drop_last();
        assert(front[0] == s[0]);
        assert(forall|i: int| 0 <= i < front.len() ==> front[i] == s[i]);
        lemma_digits_val_lower(front);
        assert(is_digit(s.last()));
        assert(digit_val(s.last()) >= 0);
        assert(pow10((s.len() - 1) as nat) == 10 * pow10((s.len() - 2) as nat));
    }
}

proof fn lemma_digits_val_strip_zero(s: Seq<char>)
    requires
        s.len() >= 1,
        s[0] as u32 == 48,
    ensures
        digits_val(s) == digits_val(s.skip(1)),
    decreases s.len(),
{
    if s.len() == 1 {
        assert(s.last() == s[0]);
        assert(s.skip(1) =~= Seq::<char>::empty());
        assert(s.drop_last() =~= Seq::<char>::empty());
    } else {
        let front = s.drop_last();
        assert(front[0] == s[0]);
        lemma_digits_val_strip_zero(front);
        assert(front.skip(1) =~= s.skip(1).drop_last());
        assert(s.skip(1).last() == s.last());
    }
}

/// Reads an item id from the user's reply, exactly as a signed 32-bit
/// decimal: `None` on anything else, including a value out of range.
pub fn parse_id(s: &str) -> (r: Option<i32>)
    ensures
        match r {
            Some(v) => spec_parse_i32(s@) == Some(v as int),
            None => spec_parse_i32(s@) is None,
        },
{
    let chars = chars_of_str(s);
    let n = chars.len();
    if n == 0 {
        return None;
    }
    let c0 = chars[0];
    let signed = c0 == '-' || c0 == '+';
    let neg = c0 == '-';
    let start: usize = if signed {
        1
    } else {
        0
    };
    let ghost ds = if signed {
        s@.skip(1)
    } else {
        s@
    };
    proof {
        assert(s@.skip(0) =~= s@);
        assert(ds =~= s@.skip(start as int));
    }
    if start >= n {
        return None;
    }
    // every character after the sign must be a digit
    let mut i: usize = start;
    while i < n
        invariant
            start <= i <= n,
            n >= 1,
            start < n,
            n == s@.len(),
            chars@ == s@,
            neg == (s@[0] == '-'),
            signed == (s@[0] == '-' || s@[0] == '+'),
            start == if signed {
                1int
            } else {
                0int
            },
            ds == s@.skip(start as int),
            forall|j: int| start <= j < i ==> is_digit(#[trigger] s@[j]),
        decreases n - i,
    {
        let u = chars[i] as u32;
        if u < 48 || u > 57 {
            proof {
                assert(ds[i - start] == s@[i as int]);
                assert(!all_digits(ds));
            }
            return None;
        }
        i = i + 1;
    }
    proof {
        assert forall|k: int| 0 <= k < ds.len() implies is_digit(#[trigger] ds[k]) by {
            assert(ds[k] == s@[k + start]);
        }
        assert(all_digits(ds));
    }
    // leading zeros do not change the value
    let mut z: usize = start;
    while z < n && chars[z] as u32 == 48
        invariant
            start <= z <= n,
            n == s@.len(),
            chars@ == s@,
            digits_val(ds) == digits_val(s@.skip(z as int)),
        decreases n - z,
    {
        proof {
            lemma_digits_val_strip_zero(s@.skip(z as int));
            assert(s@.skip(z as int).skip(1) =~= s@.skip(z + 1));
        }
        z = z + 1;
    }
    let ghost dz = s@.skip(z as int);
    proof {
        assert forall|k: int| 0 <= k < dz.len() implies is_digit(#[trigger] dz[k]) by {
            assert(dz[k] == s@[k + z]);
        }
    }
    if n - z > 10 {
        // more than ten significant digits cannot fit a 32-bit value
        proof {
            assert(dz[0] == s@[z as int]);
            assert(s@[z as int] as u32 != 48);
            assert(digit_val(dz[0]) >= 1);
            lemma_digits_val_lower(dz);
            lemma_pow10_mono((dz.len() - 1) as nat, 10);
            lemma_pow10_values();
            assert(digits_val(ds) >= 10000000000);
        }
        return None;
    }
    let mut v: u64 = 0;
    let mut q: usize = z;
    proof {
        assert(dz.take(0) =~= Seq::<char>::empty());
    }
    while q < n
        invariant
            z <= q <= n,
            n == s@.len(),
            chars@ == s@,
            n - z <= 10,
            dz == s@.skip(z as int),
            forall|k: int| 0 <= k < dz.len() ==> is_digit(#[trigger] dz[k]),
            v as int == digits_val(dz.take(q - z)),
            (v as int) < pow10((q - z) as nat),
        decreases n - q,
    {
        proof {
            lemma_pow10_mono(9, (q - z) as nat);
            lemma_pow10_values();
            assert(dz[q - z] == s@[q as int]);
        }
        let d = chars[q] as u32 - 48;
        v = v * 10 + (d as u64);
        proof {
            assert(dz.take(q - z + 1).drop_last() =~= dz.take(q - z));
            assert(dz.take(q - z + 1).last() == dz[q - z]);
        }
        q = q + 1;
    }
    proof {
        assert(dz.take(n - z) =~= dz);
        lemma_pow10_mono(10, (n - z) as nat);
        lemma_pow10_values();
    }
    if neg {
        if v > 2147483648 {
            return None;
        }
        if v == 2147483648 {
            return Some(i32::MIN);
        }
        Some(-(v as i32))
    } else {
        if v > 2147483647 {
            return None;
        }
        Some(v as i32)
    }
}

/// The item an `add` persists: the first parameter is the title, the
/// second, if given, the description; missing title means usage error.
pub fn todo_from_params(params: &Vec<String>) -> (r: Option<Todo>)
    ensures
        match r {
            Some(t) => params@.len() >= 1 && t@ == (TodoModel {
                id: None,
                title: params@[0]@,
                description: if params@.len() >= 2 {
                    Some(params@[1]@)
                } else {
                    None
                },
                done: false,
            }),
            None => params@.len() == 0,
        },
{
    if params.len() == 0 {
        None
    } else {
        let description = if params.len() >= 2 {
            Some(params[1].clone())
        } else {
            None
        };
        Some(Todo::new(params[0].clone(), description, None))
    }
}

} // verus!
