use vstd::prelude::*;

use crate::error::Error;

verus! {

/// A character that may appear inside a path segment: `[A-Za-z0-9_]`.
pub open spec fn is_segment_char(c: char) -> bool {
    ('0' <= c && c <= '9') || ('a' <= c && c <= 'z') || ('A' <= c && c <= 'Z') || c == '_'
}

/// `s` is an absolute slash-separated path: one leading slash, at least one
/// segment, no empty segment (so no double or trailing slash), and every
/// other character a segment character.
pub open spec fn valid_specifier(s: Seq<char>) -> bool {
    &&& s.len() >= 2
    &&& s[0] == '/'
    &&& s[s.len() - 1] != '/'
    &&& forall|i: int|
        1 <= i < s.len() ==> #[trigger] is_segment_char(s[i]) || (s[i] == '/' && s[i - 1] != '/')
}

fn segment_char(c: char) -> (r: bool)
    ensures
        r == is_segment_char(c),
{
    ('0' <= c && c <= '9') || ('a' <= c && c <= 'z') || ('A' <= c && c <= 'Z') || c == '_'
}

/// Technology independent description of where a service instance lives,
/// e.g. `/my/path/to/service_name`.
#[derive(Clone, Debug)]
pub struct InstanceSpecifier {
    specifier: String,
}

impl View for InstanceSpecifier {
    type V = Seq<char>;

    closed spec fn view(&self) -> Seq<char> {
        self.specifier@
    }
}

impl InstanceSpecifier {
    /// Tells whether `service_name` is a well-formed instance path.
    pub fn check_str(service_name: &str) -> (r: bool)
        ensures
            r == valid_specifier(service_name@),
    {
        let n = service_name.unicode_len();
        if n < 2 {
            return false;
        }
        if service_name.get_char(0) != '/' || service_name.get_char(n - 1) == '/' {
            return false;
        }
        let mut prev: char = '/';
        let mut i: usize = 1;
        while i < n
            invariant
                n == service_name@.len(),
                1 <= i <= n,
                prev == service_name@[i - 1],
                service_name@[0] == '/',
                forall|j: int|
                    1 <= j < i ==> #[trigger] is_segment_char(service_name@[j]) || (
                    service_name@[j] == '/' && service_name@[j - 1] != '/'),
            decreases n - i,
        {
            let c = service_name.get_char(i);
            if !(segment_char(c) || (c == '/' && prev != '/')) {
                assert(!(is_segment_char(service_name@[i as int]) || (service_name@[i as int]
                    == '/' && service_name@[i - 1] != '/')));
                return false;
            }
            prev = c;
            i = i + 1;
        }
        true
    }

    /// Creates an instance specifier from a path; fails with `Error::Fail`
    /// when the path is not well formed.
    pub fn new(service_name: &str) -> (r: Result<InstanceSpecifier, Error>)
        ensures
            valid_specifier(service_name@) <==> r is Ok,
            r is Ok ==> r->Ok_0@ == service_name@,
            r is Err ==> r->Err_0 == Error::Fail,
    {
        if Self::check_str(service_name) {
            Ok(InstanceSpecifier { specifier: service_name.to_string() })
        } else {
            Err(Error::Fail)
        }
    }

    /// The path this specifier names.
    pub fn as_str(&self) -> (r: &str)
        ensures
            r@ == self@,
    {
        self.specifier.as_str()
    }

    /// A copy of the specifier.
    pub fn duplicate(&self) -> (r: InstanceSpecifier)
        ensures
            r@ == self@,
    {
        InstanceSpecifier { specifier: self.specifier.clone() }
    }

    /// The specifier as an owned string.
    pub fn to_text(&self) -> (r: String)
        ensures
            r@ == self@,
    {
        self.specifier.clone()
    }

    /// Whether two specifiers name the same instance.
    pub fn same_as(&self, other: &InstanceSpecifier) -> (r: bool)
        ensures
            r == (self@ == other@),
    {
        self.specifier == other.specifier
    }
}

/// Which instances a service discovery looks for.
#[derive(Clone, Debug)]
pub enum FindServiceSpecifier {
    /// Only the instance with this specifier.
    Specific(InstanceSpecifier),
    /// Every instance of the interface.
    Any,
}

impl FindServiceSpecifier {
    /// The instance path asked for; `None` asks for every instance.
    pub open spec fn wanted(&self) -> Option<Seq<char>> {
        match self {
            FindServiceSpecifier::Specific(i) => Some(i@),
            FindServiceSpecifier::Any => None,
        }
    }
}

impl From<InstanceSpecifier> for FindServiceSpecifier {
    fn from(i: InstanceSpecifier) -> (r: FindServiceSpecifier)
        ensures
            r == FindServiceSpecifier::Specific(i),
    {
        FindServiceSpecifier::Specific(i)
    }
}

impl vstd::std_specs::convert::FromSpecImpl<InstanceSpecifier> for FindServiceSpecifier {
    open spec fn obeys_from_spec() -> bool {
        true
    }

    open spec fn from_spec(i: InstanceSpecifier) -> FindServiceSpecifier {
        FindServiceSpecifier::Specific(i)
    }
}

} // verus!
