use vstd::prelude::*;

use crate::text::{
    contains, contains_pat, find_from, find_pat, lemma_find_from, matches_at, split, split_from,
    split_pat, string_of, to_chars, views,
};

verus! {

broadcast use vstd::string::group_string_axioms;

/// A request for `webget`, as it is taken apart: the pieces of the command line between
/// `://`, and from them host, port, file and whether the connection is secure.
pub struct CommandParameters {
    pub hostname: String,
    pub file: String,
    pub https: bool,
    pub vec_commands: Vec<String>,
    pub port: String,
}

/// The pieces of a command line between the occurrences of `://`.
pub open spec fn scheme_pieces(input: Seq<char>) -> Seq<Seq<char>> {
    split_pat(input, "://"@)
}

/// A command line can be taken apart: it has a `://`, and a `/` after it.
pub open spec fn valid_pieces(v: Seq<Seq<char>>) -> bool {
    v.len() >= 2 && contains_pat(v[1], "/"@)
}

/// The pieces after the second one is cut at its first `/`: the pieces from the third on,
/// then the part before that `/`, then the rest from the `/` on.
pub open spec fn rearranged(v: Seq<Seq<char>>) -> Seq<Seq<char>> {
    let i = find_from(v[1], "/"@, 0);
    v.skip(2).push(v[1].take(i)).push("/"@ + v[1].skip(i + 1))
}

/// The request is a secure one: it was already, or the first piece names `https`.
pub open spec fn secure(v: Seq<Seq<char>>, https: bool) -> bool {
    https || contains_pat(v[0], "https"@)
}

/// The host of a `host` or `host:port` piece.
pub open spec fn host_of(hp: Seq<char>) -> Seq<char> {
    if contains_pat(hp, ":"@) {
        split_pat(hp, ":"@)[0]
    } else {
        hp
    }
}

/// The port of a `host` or `host:port` piece: the default port of the scheme when none is
/// given.
pub open spec fn port_of(hp: Seq<char>, secure: bool) -> Seq<char> {
    if contains_pat(hp, ":"@) {
        split_pat(hp, ":"@)[1]
    } else if secure {
        "443"@
    } else {
        "80"@
    }
}

impl CommandParameters {
    /// The parameters of a command line before they are taken apart: its pieces between
    /// `://`, everything else empty.
    pub fn from_input(input: &String) -> (c: CommandParameters)
        ensures
            views(c.vec_commands@) == scheme_pieces(input@),
            c.hostname@ == Seq::<char>::empty(),
            c.file@ == Seq::<char>::empty(),
            c.port@ == Seq::<char>::empty(),
            !c.https,
    {
        let chars = to_chars(input.as_str());
        let sep = to_chars("://");
        proof {
            reveal_strlit("://");
        }
        CommandParameters {
            hostname: String::new(),
            file: String::new(),
            https: false,
            vec_commands: split(&chars, &sep),
            port: String::new(),
        }
    }
}

/// Takes the pieces of a command line apart into host, port and file: the second piece is
/// cut at its first `/`; the first piece tells whether the request is secure and is then
/// dropped; of what remains, the first piece is `host` or `host:port` and the second the
/// file.
pub fn get_command_parameters(commands: CommandParameters) -> (c: CommandParameters)
    requires
        valid_pieces(views(commands.vec_commands@)),
    ensures
        views(c.vec_commands@) == rearranged(views(commands.vec_commands@)),
        c.https == secure(views(commands.vec_commands@), commands.https),
        c.hostname@ == host_of(rearranged(views(commands.vec_commands@))[0]),
        c.port@ == port_of(rearranged(views(commands.vec_commands@))[0], c.https),
        c.file@ == rearranged(views(commands.vec_commands@))[1],
{
    let mut commands = commands;
    let ghost v = views(commands.vec_commands@);
    let item = to_chars(commands.vec_commands[1].as_str());
    let slash = to_chars("/");
    proof {
        reveal_strlit("/");
        reveal_strlit(":");
        assert(slash@.len() == 1);
    }
    let found = find_pat(&item, &slash, 0);
    proof {
        lemma_find_from(item@, slash@, 0);
    }
    let i = found.unwrap();
    proof {
        assert(find_from(item@, slash@, 0) == i);
        assert(crate::text::matches_at(item@, slash@, i as int));
    }
    let x = string_of(&item, 0, i);
    assert(i + 1 <= item.len());
    let rest = string_of(&item, i + 1, item.len());
    let mut y = String::from_str("/");
    y.append(rest.as_str());
    commands.vec_commands.remove(1);
    commands.vec_commands.push(x);
    commands.vec_commands.push(y);
    let ghost v1 = views(commands.vec_commands@);
    assert(v1[0] == v[0]);
    let first = to_chars(commands.vec_commands[0].as_str());
    let https = to_chars("https");
    if contains(&first, &https) {
        commands.https = true;
        commands.vec_commands.remove(0);
    } else {
        commands.vec_commands.remove(0);
    }
    assert(views(commands.vec_commands@) =~= rearranged(v));
    let hp = to_chars(commands.vec_commands[0].as_str());
    let colon = to_chars(":");
    if !contains(&hp, &colon) {
        commands.hostname = commands.vec_commands[0].clone();
        let https = "443";
        let http = "80";
        if commands.https {
            commands.port = String::from_str(https);
        } else {
            commands.port = String::from_str(http);
        }
    } else {
        let port_vec = split(&hp, &colon);
        proof {
            crate::text::lemma_split_pat_contains(hp@, colon@);
        }
        commands.hostname = port_vec[0].clone();
        commands.port = port_vec[1].clone();
    }
    commands.file = commands.vec_commands[1].clone();
    commands
}

/// The request `webget` sends for `file` on `host`.
pub open spec fn request_text(host: Seq<char>, file: Seq<char>) -> Seq<char> {
    "GET "@ + file + " HTTP/1.1\n"@ + "Host: "@ + host + "\nConnection: Close \n\n"@
}

/// The request for `file` on `host`.
pub fn create_message(host: String, file: String) -> (message: String)
    ensures
        message@ == request_text(host@, file@),
{
    let mut message = String::from_str("GET ");
    message.append(file.as_str());
    message.append(" HTTP/1.1\n");
    message.append("Host: ");
    message.append(host.as_str());
    message.append("\nConnection: Close \n\n");
    message
}

/// A server's reply, taken apart: the lines of its head, and its body when it has one.
pub struct Reply {
    pub header_lines: Vec<String>,
    pub body: Option<String>,
}

/// The parts of a reply between blank lines (`\r\n\r\n`).
pub open spec fn reply_parts(reply: Seq<char>) -> Seq<Seq<char>> {
    split_pat(reply, "\r\n\r\n"@)
}

/// Takes a reply apart: the head is the part before the first blank line, cut into lines
/// at `\r\n`; the body is the part between the first and the second blank line.
pub fn parse_reply(reply: &String) -> (r: Reply)
    ensures
        views(r.header_lines@) == split_pat(reply_parts(reply@)[0], "\r\n"@),
        match r.body {
            Some(b) => reply_parts(reply@).len() >= 2 && b@ == reply_parts(reply@)[1],
            None => reply_parts(reply@).len() < 2,
        },
{
    let chars = to_chars(reply.as_str());
    let blank = to_chars("\r\n\r\n");
    let eol = to_chars("\r\n");
    proof {
        reveal_strlit("\r\n\r\n");
        reveal_strlit("\r\n");
        crate::text::lemma_split_from_nonempty(chars@, blank@, 0);
    }
    let parts = split(&chars, &blank);
    assert(parts@[0]@ == reply_parts(reply@)[0]);
    let head = to_chars(parts[0].as_str());
    let header_lines = split(&head, &eol);
    let body = if parts.len() >= 2 {
        assert(parts@[1]@ == reply_parts(reply@)[1]);
        Some(parts[1].clone())
    } else {
        None
    };
    Reply { header_lines, body }
}

/// The name a fetched file is saved under: the part of its path after the last `/`.
pub fn save_name(filename: &String) -> (name: String)
    ensures
        name@ == split_pat(filename@, "/"@).last(),
{
    let chars = to_chars(filename.as_str());
    let slash = to_chars("/");
    proof {
        reveal_strlit("/");
        crate::text::lemma_split_from_nonempty(chars@, slash@, 0);
    }
    let parts = split(&chars, &slash);
    assert(parts@[parts.len() - 1]@ == split_pat(filename@, "/"@).last());
    parts[parts.len() - 1].clone()
}


/// The port does not depend on the scheme once the URL names one: a `host:port` piece gives
/// the text after its `:` for `http` and `https` alike, and the host before it. Only a
/// piece without a port falls back on the scheme's default, 443 for `https` and 80 else.
pub proof fn law_named_port_wins(hp: Seq<char>, is_secure: bool)
    ensures
        contains_pat(hp, ":"@) ==> port_of(hp, is_secure) == port_of(hp, !is_secure),
        contains_pat(hp, ":"@) ==> port_of(hp, is_secure) == split_pat(hp, ":"@)[1]
            && host_of(hp) == split_pat(hp, ":"@)[0],
        !contains_pat(hp, ":"@) ==> host_of(hp) == hp && port_of(hp, is_secure) == if is_secure {
            "443"@
        } else {
            "80"@
        },
{
}


/// For a `host:port` piece with a single `:`, the host is the text before the `:` and the
/// port the text after it, for every scheme.
pub proof fn law_host_port_around_colon(hp: Seq<char>, k: int, is_secure: bool)
    requires
        0 <= k < hp.len(),
        hp[k] == ':',
        forall|j: int| 0 <= j < hp.len() && j != k ==> hp[j] != ':',
    ensures
        host_of(hp) == hp.take(k),
        port_of(hp, is_secure) == hp.skip(k + 1),
{
    reveal_strlit(":");
    let c = ":"@;
    assert(matches_at(hp, c, k)) by {
        assert(hp.subrange(k, k + 1) =~= c);
    }
    assert forall|j: int| #[trigger] matches_at(hp, c, j) implies j == k by {
        assert(hp.subrange(j, j + 1)[0] == hp[j]);
    }
    lemma_find_from(hp, c, 0);
    assert(find_from(hp, c, 0) == k);
    lemma_find_from(hp, c, k + 1);
    assert(find_from(hp, c, k + 1) == -1);
    assert(split_from(hp, c, k + 1) == seq![hp.subrange(k + 1, hp.len() as int)]);
    assert(split_pat(hp, c) == seq![hp.subrange(0, k)] + split_from(hp, c, k + 1));
    assert(hp.subrange(0, k) =~= hp.take(k));
    assert(hp.subrange(k + 1, hp.len() as int) =~= hp.skip(k + 1));
}

} // verus!
