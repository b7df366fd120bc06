use vstd::prelude::*;

use crate::text::{fields, split_fields, string_of, to_chars, views, Separators};

verus! {

broadcast use vstd::string::group_string_axioms;

/// The file a request asks for: the second field of the request between `/`, blanks and
/// carriage returns (the first is the method). `None` when there is no second field.
pub fn requested_file(request: &String) -> (name: Option<String>)
    ensures
        match name {
            Some(n) => fields(request@, Separators::RequestDelimiters).len() >= 2 && n@ == fields(
                request@,
                Separators::RequestDelimiters,
            )[1],
            None => fields(request@, Separators::RequestDelimiters).len() < 2,
        },
{
    let chars = to_chars(request.as_str());
    let temp_vec = split_fields(&chars, Separators::RequestDelimiters);
    if temp_vec.len() < 2 {
        return None;
    }
    assert(temp_vec@[1]@ == views(temp_vec@)[1]);
    Some(temp_vec[1].clone())
}

/// The index of the last `.` in `s`, or -1 when there is none.
pub open spec fn last_dot(s: Seq<char>) -> int
    decreases s.len(),
{
    if s.len() == 0 {
        -1
    } else if s.last() == '.' {
        s.len() - 1
    } else {
        last_dot(s.drop_last())
    }
}

/// The stem of a text file's name: when the name has the extension `txt`, the name before
/// it. A name has an extension when it holds a `.` after its first character; the
/// extension is what follows the last `.`, the stem what comes before it.
pub open spec fn txt_stem_of(name: Seq<char>) -> Option<Seq<char>> {
    let k = last_dot(name);
    if k > 0 && name.subrange(k + 1, name.len() as int) == "txt"@ {
        Some(name.take(k))
    } else {
        None
    }
}

proof fn lemma_last_dot_range(s: Seq<char>)
    ensures
        -1 <= last_dot(s) < s.len(),
        last_dot(s) >= 0 ==> s[last_dot(s)] == '.',
    decreases s.len(),
{
    if s.len() > 0 && s.last() != '.' {
        lemma_last_dot_range(s.drop_last());
    }
}

/// The stem of a file's name when the file is a text file (its extension is `txt`): the
/// server serves these files by their stems.
pub fn txt_stem(name: &String) -> (stem: Option<String>)
    ensures
        match txt_stem_of(name@) {
            Some(t) => stem is Some && stem->0@ == t,
            None => stem is None,
        },
{
    let v = to_chars(name.as_str());
    let mut i: usize = v.len();
    assert(v@.take(i as int) =~= v@);
    while i > 0
        invariant
            i <= v.len(),
            last_dot(v@) == last_dot(v@.take(i as int)),
        ensures
            i <= v.len(),
            last_dot(v@) == last_dot(v@.take(i as int)),
            i == 0 || v@[i - 1] == '.',
        decreases i,
    {
        if v[i - 1] == '.' {
            break;
        }
        assert(v@.take(i as int).drop_last() =~= v@.take(i - 1));
        i = i - 1;
    }
    proof {
        reveal_strlit("txt");
        lemma_last_dot_range(v@);
        if i > 0 {
            assert(last_dot(v@.take(i as int)) == i - 1);
        } else {
            assert(v@.take(0) =~= Seq::<char>::empty());
        }
    }
    if i > 1 && v.len() - i == 3 && v[i] == 't' && v[i + 1] == 'x' && v[i + 2] == 't' {
        let k = i - 1;
        assert(v@.subrange(k + 1, v.len() as int) =~= "txt"@);
        let stem = string_of(&v, 0, k);
        assert(v@.subrange(0, k as int) =~= v@.take(k as int));
        Some(stem)
    } else {
        proof {
            let k = last_dot(v@);
            if k > 0 && v@.subrange(k + 1, v@.len() as int) == "txt"@ {
                assert(k == i - 1);
                assert("txt"@.len() == 3);
                assert(v@.subrange(k + 1, v@.len() as int).len() == 3);
                assert(v@.len() - i == 3);
                assert(v@.subrange(k + 1, v@.len() as int)[0] == v@[i as int]);
                assert(v@.subrange(k + 1, v@.len() as int)[1] == v@[i + 1]);
                assert(v@.subrange(k + 1, v@.len() as int)[2] == v@[i + 2]);
            }
        }
        None
    }
}

/// How the server answers a request.
#[derive(Debug, Clone, Copy, PartialEq, Eq, Structural)]
pub enum Response {
    /// There are no text files to serve: the answer is empty.
    Empty,
    /// No text file has the name asked for.
    NotFound,
    /// The text file at this index has the name asked for.
    Found(usize),
}

/// The answer to a request for `filename` when the text files have the names (without
/// `.txt`) `stems`: the first file so named; not found when there is none; an empty answer
/// when there are no files at all.
pub open spec fn response_for(filename: Seq<char>, stems: Seq<Seq<char>>) -> Response {
    if stems.len() == 0 {
        Response::Empty
    } else if exists|i: int| 0 <= i < stems.len() && stems[i] == filename {
        Response::Found(
            (choose|i: int|
                0 <= i < stems.len() && stems[i] == filename && forall|j: int|
                    0 <= j < i ==> stems[j] != filename) as usize,
        )
    } else {
        Response::NotFound
    }
}

/// Decides the answer to a request for `filename` among text files with the names
/// `stems`: the first match wins.
pub fn create_response(filename: &String, stems: &Vec<String>) -> (r: Response)
    ensures
        r == response_for(filename@, views(stems@)),
        r matches Response::Found(i) ==> i < stems.len() && stems@[i as int]@ == filename@ && forall|j: int|
            0 <= j < i ==> stems@[j]@ != filename@,
{
    let ghost s = views(stems@);
    let mut response = Response::Empty;
    let mut k: usize = 0;
    while k < stems.len()
        invariant
            k <= stems.len(),
            s == views(stems@),
            forall|j: int| 0 <= j < k ==> stems@[j]@ != filename@,
            response == if k == 0 {
                Response::Empty
            } else {
                Response::NotFound
            },
        decreases stems.len() - k,
    {
        if stems[k] == *filename {
            let r = Response::Found(k);
            proof {
                let w = choose|i: int|
                    0 <= i < s.len() && s[i] == filename@ && forall|j: int|
                        0 <= j < i ==> s[j] != filename@;
                assert(s[k as int] == filename@);
                if w < k {
                    assert(stems@[w]@ == s[w]);
                } else if w > k {
                    assert(s[k as int] != filename@);
                }
                assert(r == response_for(filename@, s));
            }
            return r;
        } else {
            response = Response::NotFound;
        }
        k = k + 1;
    }
    proof {
        if exists|i: int| 0 <= i < s.len() && s[i] == filename@ {
            let w = choose|i: int| 0 <= i < s.len() && s[i] == filename@;
            assert(stems@[w]@ == s[w]);
        }
    }
    response
}

/// The page that serves a text file's contents.
pub open spec fn found_page(contents: Seq<char>) -> Seq<char> {
    "HTTP/1.1 200 OK\r\nContent-Type: text/html; charset=UTF-8\r\nContent-Length: \r\n\r\n<html>\r\n<body>\r\n<h1>Requested File Contents: </h1>\r\n"@
        + contents + "<br>\r\n</body>\r\n</html>\r\n"@
}

/// The page that serves `contents`.
pub fn render_found(contents: &String) -> (page: String)
    ensures
        page@ == found_page(contents@),
{
    let mut page = String::from_str(
        "HTTP/1.1 200 OK\r\nContent-Type: text/html; charset=UTF-8\r\nContent-Length: \r\n\r\n<html>\r\n<body>\r\n<h1>Requested File Contents: </h1>\r\n",
    );
    page.append(contents.as_str());
    page.append("<br>\r\n</body>\r\n</html>\r\n");
    page
}

/// The answer when no text file has the name asked for.
pub fn render_not_found() -> (page: String)
    ensures
        page@ == "HTTP/1.1 404 Not Found\r\nContent-Length: \r\n\r\n"@,
{
    String::from_str("HTTP/1.1 404 Not Found\r\nContent-Length: \r\n\r\n")
}

} // verus!
