use vstd::prelude::*;

verus! {

/// The bytes of an ASCII text, one per character.
pub open spec fn ascii_bytes(text: Seq<char>) -> Seq<u8> {
    text.map_values(|c: char| c as u8)
}

/// `data` begins with `prefix`.
pub open spec fn starts_with(data: Seq<u8>, prefix: Seq<u8>) -> bool {
    prefix.len() <= data.len() && data.subrange(0, prefix.len() as int) == prefix
}

/// How the server answers a request: the status line, the page to send
/// after it, and whether to pause before answering.
pub struct Route {
    pub status_line: &'static str,
    pub filename: &'static str,
    pub delay: bool,
}

/// The bytes of an ASCII string.
fn ascii_bytes_of(s: &str) -> (bytes: &[u8])
    requires
        s.is_ascii(),
    ensures
        bytes@ == ascii_bytes(s@),
{
    let b = s.as_bytes();
    assert(b@ =~= ascii_bytes(s@));
    b
}

/// Whether `data` begins with `prefix`.
fn has_prefix(data: &[u8], prefix: &[u8]) -> (r: bool)
    ensures
        r == starts_with(data@, prefix@),
{
    if prefix.len() > data.len() {
        return false;
    }
    let mut i: usize = 0;
    while i < prefix.len()
        invariant
            prefix@.len() <= data@.len(),
            i <= prefix@.len(),
            forall|j: int| 0 <= j < i ==> data@[j] == prefix@[j],
        decreases prefix@.len() - i,
    {
        if data[i] != prefix[i] {
            assert(data@.subrange(0, prefix@.len() as int)[i as int] != prefix@[i as int]);
            return false;
        }
        i += 1;
    }
    assert(data@.subrange(0, prefix@.len() as int) =~= prefix@);
    true
}

/// Chooses the answer to a request from its first bytes: a request for
/// `/` gets the greeting page; a request for `/sleep` gets the greeting
/// page after a pause; anything else gets the not-found page.
pub fn route(request: &[u8]) -> (r: Route)
    ensures
        starts_with(request@, ascii_bytes("GET / HTTP/1.1\r\n"@)) ==> r.status_line@
            == "HTTP/1.1 200 OK\r\n\r\n"@ && r.filename@ == "hello.html"@ && !r.delay,
        !starts_with(request@, ascii_bytes("GET / HTTP/1.1\r\n"@)) && starts_with(
            request@,
            ascii_bytes("GET /sleep HTTP/1.1\r\n"@),
        ) ==> r.status_line@ == "HTTP/1.1 200 OK\r\n\r\n"@ && r.filename@ == "hello.html"@
            && r.delay,
        !starts_with(request@, ascii_bytes("GET / HTTP/1.1\r\n"@)) && !starts_with(
            request@,
            ascii_bytes("GET /sleep HTTP/1.1\r\n"@),
        ) ==> r.status_line@ == "HTTP/1.1 404 NOT FOUND\r\n\r\n"@ && r.filename@ == "404.html"@
            && !r.delay,
{
    let get = "GET / HTTP/1.1\r\n";
    let sleep = "GET /sleep HTTP/1.1\r\n";
    proof {
        reveal_strlit("GET / HTTP/1.1\r\n");
        reveal_strlit("GET /sleep HTTP/1.1\r\n");
    }
    if has_prefix(request, ascii_bytes_of(get)) {
        Route { status_line: "HTTP/1.1 200 OK\r\n\r\n", filename: "hello.html", delay: false }
    } else if has_prefix(request, ascii_bytes_of(sleep)) {
        Route { status_line: "HTTP/1.1 200 OK\r\n\r\n", filename: "hello.html", delay: true }
    } else {
        Route { status_line: "HTTP/1.1 404 NOT FOUND\r\n\r\n", filename: "404.html", delay: false }
    }
}

/// The response to send: the status line followed by the page.
pub fn response(status_line: &str, contents: &str) -> (r: String)
    ensures
        r@ == status_line@ + contents@,
{
    let mut r = String::from_str(status_line);
    r.append(contents);
    r
}

} // verus!
