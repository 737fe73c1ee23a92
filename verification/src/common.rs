//! Positions and external node identities shared across the core.

use vstd::prelude::*;
use vstd::string::StrSliceExecFns;
use vstd::string::StringExecFns;

verus! {

#[verifier::external_type_specification]
#[verifier::external_body]
pub struct ExUuid(uuid::Uuid);

/// Relies on `uuid::Uuid::new_v4`: a freshly generated random identifier;
/// nothing is promised of its value.
pub assume_specification[ uuid::Uuid::new_v4 ]() -> uuid::Uuid;

/// Whether `uuid::Uuid::try_parse` accepts a string; which strings those are
/// is a property of the text alone and is left uninterpreted.
pub uninterp spec fn uuid_valid(s: Seq<char>) -> bool;

/// Relies on `uuid::Uuid::try_parse`: it accepts a string exactly when the
/// string is one of the textual uuid forms.
#[verifier::external_body]
fn uuid_try_parse(s: &str) -> (r: Option<uuid::Uuid>)
    ensures
        r is Some <==> uuid_valid(s@),
{
    uuid::Uuid::try_parse(s).ok()
}

/// Relies on `uuid::Uuid::as_hyphenated` and its display form: the
/// hyphenated rendering is always 36 characters in five dash-separated
/// groups of 8, 4, 4, 4 and 12.
#[verifier::external_body]
fn uuid_hyphenated_string(u: &uuid::Uuid) -> (r: String)
    ensures
        r@.len() == 36,
        r@[8] == '-' && r@[13] == '-' && r@[18] == '-' && r@[23] == '-',
{
    u.as_hyphenated().to_string()
}

/// An authored editor position of a node, in layout units.
#[derive(Debug, Clone, Copy, PartialEq, Eq, Structural)]
pub struct Position {
    pub x: i32,
    pub y: i32,
}

impl Default for Position {
    /// The origin, used when a node carries no authored position.
    fn default() -> (p: Position)
        ensures
            p == (Position { x: 0, y: 0 }),
    {
        Position { x: 0, y: 0 }
    }
}

/// An opaque external identity carried on a node, of the form
/// `name-uuid`.
#[derive(Debug, Clone)]
pub struct NodeId(pub String);

/// The first position of `c` in `s`, if any.
pub open spec fn find_char(s: Seq<char>, c: char) -> Option<int>
    decreases s.len(),
{
    if s.len() == 0 {
        None
    } else if s[0] == c {
        Some(0)
    } else {
        match find_char(s.drop_first(), c) {
            Some(i) => Some(i + 1),
            None => None,
        }
    }
}

/// `find_char` returns the first matching position, and nothing exactly when
/// the character does not occur.
pub proof fn lemma_find_char(s: Seq<char>, c: char)
    ensures
        match find_char(s, c) {
            Some(i) => {
                &&& 0 <= i < s.len()
                &&& s[i] == c
                &&& forall|j: int| 0 <= j < i ==> s[j] != c
            },
            None => forall|j: int| 0 <= j < s.len() ==> s[j] != c,
        },
    decreases s.len(),
{
    if s.len() > 0 && s[0] != c {
        let rest = s.drop_first();
        lemma_find_char(rest, c);
        match find_char(rest, c) {
            Some(i) => {
                assert(rest[i] == s[i + 1]);
                assert forall|j: int| 0 <= j < i + 1 implies s[j] != c by {
                    if j > 0 {
                        assert(rest[j - 1] == s[j]);
                    }
                }
            },
            None => {
                assert forall|j: int| 0 <= j < s.len() implies s[j] != c by {
                    if j > 0 {
                        assert(rest[j - 1] == s[j]);
                    }
                }
            },
        }
    }
}

impl NodeId {
    /// Splits the identity at its first dash into the name part and the
    /// remainder parsed as a uuid — the remainder keeps the dash, so it
    /// parses only when the uuid library accepts that form.
    #[verifier::loop_isolation(false)]
    pub fn try_parse(&self) -> (r: Option<(String, uuid::Uuid)>)
        ensures
            match r {
                Some(p) => ({
                    let f = find_char(self.0@, '-');
                    &&& f is Some
                    &&& p.0@ == self.0@.subrange(0, f->Some_0)
                    &&& uuid_valid(self.0@.subrange(f->Some_0, self.0@.len() as int))
                }),
                None => match find_char(self.0@, '-') {
                    Some(pos) => !uuid_valid(self.0@.subrange(pos, self.0@.len() as int)),
                    None => true,
                },
            },
    {
        let s = self.0.as_str();
        let n = s.unicode_len();
        let mut pos: usize = 0;
        while pos < n
            invariant
                pos <= n,
                n == s@.len(),
                forall|j: int| 0 <= j < pos ==> s@[j] != '-',
            decreases n - pos,
        {
            if s.get_char(pos) == '-' {
                proof {
                    lemma_find_char(s@, '-');
                }
                let tail = s.substring_char(pos, n);
                let parsed = uuid_try_parse(tail);
                match parsed {
                    Some(u) => {
                        let name = s.substring_char(0, pos).to_owned();
                        return Some((name, u));
                    },
                    None => {
                        return None;
                    },
                }
            }
            pos = pos + 1;
        }
        proof {
            lemma_find_char(s@, '-');
        }
        None
    }

    /// Joins a name and a uuid into an identity `name-uuid`: the name, one
    /// dash, then the 36 characters of the hyphenated uuid.
    pub fn from_parts(name: &str, uuid: &uuid::Uuid) -> (r: NodeId)
        ensures
            r.0@.len() == name@.len() + 37,
            r.0@.subrange(0, name@.len() as int) == name@,
            r.0@[name@.len() as int] == '-',
    {
        let mut s = name.to_owned();
        proof {
            reveal_strlit("-");
        }
        s.append("-");
        let h = uuid_hyphenated_string(uuid);
        s.append(h.as_str());
        proof {
            assert(s@.subrange(0, name@.len() as int) =~= name@);
        }
        NodeId(s)
    }

    /// A fresh identity under `name`, with a newly generated random uuid.
    pub fn new_rand(name: &str) -> (r: NodeId)
        ensures
            r.0@.len() == name@.len() + 37,
            r.0@.subrange(0, name@.len() as int) == name@,
            r.0@[name@.len() as int] == '-',
    {
        let u = uuid::Uuid::new_v4();
        NodeId::from_parts(name, &u)
    }
}

} // verus!
