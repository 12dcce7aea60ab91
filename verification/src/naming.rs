//! Names for files that are stored again under a name that is already taken.

use vstd::prelude::*;
use vstd::string::{StrSliceExecFns, StringExecFns};

verus! {

/// The character for a decimal digit.
pub open spec fn digit(d: nat) -> char {
    if d == 0 {
        '0'
    } else if d == 1 {
        '1'
    } else if d == 2 {
        '2'
    } else if d == 3 {
        '3'
    } else if d == 4 {
        '4'
    } else if d == 5 {
        '5'
    } else if d == 6 {
        '6'
    } else if d == 7 {
        '7'
    } else if d == 8 {
        '8'
    } else {
        '9'
    }
}

/// A number in decimal notation, without leading zeros.
pub open spec fn decimal(n: nat) -> Seq<char>
    decreases n,
{
    if n < 10 {
        seq![digit(n)]
    } else {
        decimal(n / 10).push(digit(n % 10))
    }
}

/// Whether place `at` of `name` holds its last dot.
pub open spec fn is_last_dot(name: Seq<char>, at: int) -> bool {
    &&& 0 <= at < name.len()
    &&& name[at] == '.'
    &&& forall|j: int| at < j < name.len() ==> name[j] != '.'
}

/// Whether `name` holds a dot.
pub open spec fn has_dot(name: Seq<char>) -> bool {
    exists|at: int| is_last_dot(name, at)
}

/// The part of `name` before its last dot; the whole name if it has none.
pub open spec fn base_of(name: Seq<char>) -> Seq<char> {
    if has_dot(name) {
        name.take(choose|at: int| is_last_dot(name, at))
    } else {
        name
    }
}

/// The part of `name` behind its last dot; empty if it has none.
pub open spec fn extension_of(name: Seq<char>) -> Seq<char> {
    if has_dot(name) {
        name.skip((choose|at: int| is_last_dot(name, at)) + 1)
    } else {
        Seq::empty()
    }
}

/// The name given to a file that arrives as `name` when `count` files came
/// under that name before it: base, a space, the count in brackets, a dot,
/// the extension. A name without a dot is all base: its new name ends in
/// the dot.
pub open spec fn numbered(name: Seq<char>, count: nat) -> Seq<char> {
    base_of(name) + seq![' ', '('] + decimal(count) + seq![')', '.'] + extension_of(name)
}

/// The last dot of a name is at one place only.
pub proof fn lemma_last_dot_unique(name: Seq<char>, a: int, b: int)
    requires
        is_last_dot(name, a),
        is_last_dot(name, b),
    ensures
        a == b,
{
}

/// The text of one decimal digit.
fn digit_text(d: usize) -> (text: &'static str)
    requires
        d < 10,
    ensures
        text@ == seq![digit(d as nat)],
{
    proof {
        reveal_strlit("0");
        reveal_strlit("1");
        reveal_strlit("2");
        reveal_strlit("3");
        reveal_strlit("4");
        reveal_strlit("5");
        reveal_strlit("6");
        reveal_strlit("7");
        reveal_strlit("8");
        reveal_strlit("9");
    }
    let text = if d == 0 {
        "0"
    } else if d == 1 {
        "1"
    } else if d == 2 {
        "2"
    } else if d == 3 {
        "3"
    } else if d == 4 {
        "4"
    } else if d == 5 {
        "5"
    } else if d == 6 {
        "6"
    } else if d == 7 {
        "7"
    } else if d == 8 {
        "8"
    } else {
        "9"
    };
    assert(text@ =~= seq![digit(d as nat)]);
    text
}

/// Writes a number in decimal notation.
pub fn decimal_text(n: usize) -> (text: String)
    ensures
        text@ == decimal(n as nat),
    decreases n,
{
    if n < 10 {
        String::from_str(digit_text(n))
    } else {
        let mut text = decimal_text(n / 10);
        text.append(digit_text(n % 10));
        assert(text@ =~= decimal((n / 10) as nat).push(digit((n % 10) as nat)));
        text
    }
}

/// Finds the last dot of a name.
pub fn last_dot(name: &str) -> (at: Option<usize>)
    ensures
        match at {
            Some(i) => is_last_dot(name@, i as int),
            None => !has_dot(name@),
        },
{
    let len = name.unicode_len();
    let mut i = len;
    while i > 0
        invariant
            i <= len,
            len == name@.len(),
            forall|j: int| i <= j < len ==> name@[j] != '.',
        decreases i,
    {
        i -= 1;
        if name.get_char(i) == '.' {
            return Some(i);
        }
    }
    None
}

/// Builds the name for a file that arrives as `name` when `count` files came
/// under that name before it.
pub fn numbered_name(name: &str, count: usize) -> (renamed: String)
    ensures
        renamed@ == numbered(name@, count as nat),
{
    let len = name.unicode_len();
    let dot = last_dot(name);
    let mut renamed = match dot {
        Some(at) => {
            proof {
                lemma_last_dot_unique(name@, at as int, choose|i: int| is_last_dot(name@, i));
            }
            String::from_str(name.substring_char(0, at))
        },
        None => String::from_str(name),
    };
    assert(renamed@ =~= base_of(name@));
    proof {
        reveal_strlit(" (");
        reveal_strlit(").");
    }
    renamed.append(" (");
    let digits = decimal_text(count);
    renamed.append(digits.as_str());
    renamed.append(").");
    match dot {
        Some(at) => {
            proof {
                lemma_last_dot_unique(name@, at as int, choose|i: int| is_last_dot(name@, i));
            }
            renamed.append(name.substring_char(at + 1, len));
        },
        None => {},
    }
    assert(renamed@ =~= numbered(name@, count as nat));
    renamed
}

} // verus!
