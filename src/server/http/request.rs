//! The request line of an HTTP request.
use vstd::prelude::*;
use vstd::string::*;

use crate::text::{append_str, chars_of, count_spaces, space_count, str_eq, trim, trimmed};

verus! {

/// `<VERB> <PATH> <VERSION>`, each part trimmed of white space.
pub struct RequestLine<'a> {
    pub verb: &'a str,
    pub path: &'a str,
    pub version: &'a str,
}

/// The position of the first space in `s`; -1 if there is none.
pub open spec fn first_space(s: Seq<char>) -> int
    decreases s.len(),
{
    if s.len() == 0 {
        -1
    } else if s[0] == ' ' {
        0
    } else if first_space(s.drop_first()) < 0 {
        -1
    } else {
        first_space(s.drop_first()) + 1
    }
}

/// The three parts of `s`, split at its two spaces.
pub open spec fn fields(s: Seq<char>) -> (Seq<char>, Seq<char>, Seq<char>) {
    let i = first_space(s);
    let rest = s.skip(i + 1);
    let j = first_space(rest);
    (s.take(i), rest.take(j), rest.skip(j + 1))
}

/// The method is `GET`, in any case of letters.
pub open spec fn is_get(m: Seq<char>) -> bool {
    &&& m.len() == 3
    &&& (m[0] == 'G' || m[0] == 'g')
    &&& (m[1] == 'E' || m[1] == 'e')
    &&& (m[2] == 'T' || m[2] == 't')
}

/// A request line that this server answers: a `GET` of an absolute path
/// in one of the versions it knows.
pub open spec fn valid_request(verb: Seq<char>, path: Seq<char>, version: Seq<char>) -> bool {
    &&& is_get(verb)
    &&& path.len() > 0 && path[0] == '/'
    &&& (version == "HTTP/0.9"@ || version == "HTTP/1.0"@ || version == "HTTP/1.1"@ || version
        == "HTTP"@)
}

proof fn lemma_first_space_at(s: Seq<char>, k: int)
    requires
        0 <= k <= s.len(),
        forall|i: int| 0 <= i < k ==> s[i] != ' ',
        k == s.len() || s[k] == ' ',
    ensures
        first_space(s) == if k == s.len() {
            -1
        } else {
            k
        },
    decreases k,
{
    if k > 0 {
        lemma_first_space_at(s.drop_first(), k - 1);
    }
}

/// The position of the first space in `s` at or after `from`; `s.len()` if none.
fn next_space(s: &Vec<char>, from: usize) -> (r: usize)
    requires
        from <= s.len(),
    ensures
        from <= r <= s.len(),
        forall|k: int| from <= k < r ==> s@[k] != ' ',
        r < s.len() ==> s@[r as int] == ' ',
        first_space(s@.skip(from as int)) == if r == s.len() {
            -1
        } else {
            r - from
        },
{
    let mut i: usize = from;
    while i < s.len() && s[i] != ' '
        invariant
            from <= i <= s.len(),
            forall|k: int| from <= k < i ==> s@[k] != ' ',
        decreases s.len() - i,
    {
        i = i + 1;
    }
    proof {
        lemma_first_space_at(s@.skip(from as int), i - from);
    }
    i
}

impl<'a> RequestLine<'a> {
    /// A request line of the parts given, each trimmed.
    pub fn new(m: &'a str, fp: &'a str, v: &'a str) -> (r: RequestLine<'a>)
        ensures
            r.verb@ == trim(m@),
            r.path@ == trim(fp@),
            r.version@ == trim(v@),
    {
        RequestLine { verb: trimmed(m), path: trimmed(fp), version: trimmed(v) }
    }

    /// Reads `<VERB> <PATH> <VERSION>`: exactly three parts between single
    /// spaces, valid once trimmed.
    pub fn from_str(s: &'a str) -> (r: Option<RequestLine<'a>>)
        ensures
            r is Some <==> space_count(s@) == 2 && valid_request(
                trim(fields(s@).0),
                trim(fields(s@).1),
                trim(fields(s@).2),
            ),
            r matches Some(l) ==> l.verb@ == trim(fields(s@).0) && l.path@ == trim(fields(s@).1)
                && l.version@ == trim(fields(s@).2),
    {
        let chars = chars_of(s);
        if count_spaces(&chars) != 2 {
            return None;
        }
        let n = chars.len();
        let i = next_space(&chars, 0);
        assert(s@.skip(0) =~= s@);
        if i >= n {
            proof {
                lemma_no_spaces(chars@);
            }
            return None;
        }
        let j = next_space(&chars, i + 1);
        if j >= n {
            proof {
                lemma_count_two_spaces(chars@, i as int);
            }
            return None;
        }
        let method = s.substring_char(0, i);
        let file = s.substring_char(i + 1, j);
        let http_version = s.substring_char(j + 1, n);
        proof {
            let rest = s@.skip(i + 1);
            assert(method@ =~= fields(s@).0);
            assert(file@ =~= rest.take(j - (i + 1)));
            assert(http_version@ =~= rest.skip(j - (i + 1) + 1));
        }
        let request_line = RequestLine::new(method, file, http_version);
        if request_line.valid() {
            Some(request_line)
        } else {
            None
        }
    }

    /// Whether the request line is one that this server answers.
    pub fn valid(&self) -> (r: bool)
        ensures
            r == valid_request(self.verb@, self.path@, self.version@),
    {
        let m = chars_of(self.verb);
        let valid_method = m.len() == 3 && (m[0] == 'G' || m[0] == 'g') && (m[1] == 'E' || m[1]
            == 'e') && (m[2] == 'T' || m[2] == 't');
        let p = chars_of(self.path);
        let valid_path = p.len() > 0 && p[0] == '/';
        let v = self.version;
        let valid_version = str_eq(v, "HTTP/0.9") || str_eq(v, "HTTP/1.0") || str_eq(v, "HTTP/1.1")
            || str_eq(v, "HTTP");
        valid_method && valid_path && valid_version
    }

    /// The request line as `RequestLine[VERB PATH VERSION]`.
    pub fn to_string(&self) -> (r: String)
        ensures
            r@ == "RequestLine["@ + self.verb@ + " "@ + self.path@ + " "@ + self.version@ + "]"@,
    {
        let mut s = String::new();
        append_str(&mut s, "RequestLine[");
        append_str(&mut s, self.verb);
        append_str(&mut s, " ");
        append_str(&mut s, self.path);
        append_str(&mut s, " ");
        append_str(&mut s, self.version);
        append_str(&mut s, "]");
        s
    }
}

/// A text with two spaces, the first at `i`, has another after it.
proof fn lemma_count_two_spaces(s: Seq<char>, i: int)
    requires
        space_count(s) == 2,
        0 <= i < s.len(),
        s[i] == ' ',
        forall|k: int| 0 <= k < i ==> s[k] != ' ',
    ensures
        exists|k: int| i < k < s.len() && s[k] == ' ',
{
    lemma_space_count_split(s, i + 1);
    if forall|k: int| i < k < s.len() ==> s[k] != ' ' {
        lemma_no_spaces(s.skip(i + 1));
        lemma_no_spaces(s.take(i));
        lemma_space_count_split(s.take(i + 1), i);
        assert(s.take(i + 1).take(i) =~= s.take(i));
        assert(s.take(i + 1).skip(i) =~= seq![' ']);
        assert(space_count(seq![' ']) == space_count(Seq::<char>::empty()) + 1) by {
            assert(seq![' '].drop_last() =~= Seq::<char>::empty());
        }
    }
}

proof fn lemma_no_spaces(s: Seq<char>)
    requires
        forall|k: int| 0 <= k < s.len() ==> s[k] != ' ',
    ensures
        space_count(s) == 0,
    decreases s.len(),
{
    if s.len() > 0 {
        lemma_no_spaces(s.drop_last());
    }
}

proof fn lemma_space_count_split(s: Seq<char>, k: int)
    requires
        0 <= k <= s.len(),
    ensures
        space_count(s) == space_count(s.take(k)) + space_count(s.skip(k)),
    decreases s.len() - k,
{
    if k == s.len() {
        assert(s.take(k) =~= s);
        assert(s.skip(k) =~= Seq::<char>::empty());
    } else {
        lemma_space_count_split(s.drop_last(), k);
        assert(s.drop_last().take(k) =~= s.take(k));
        assert(s.skip(k).drop_last() =~= s.drop_last().skip(k));
    }
}

} // verus!
