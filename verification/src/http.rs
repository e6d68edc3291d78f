//! The setup server's replies.

use vstd::prelude::*;
use vstd::string::StringExecFns;

verus! {

/// The server thread's stack.
pub const STACK_SIZE: usize = 10240;

/// The longest request body that is read.
pub const MAX_REQ_LEN: usize = 128;

#[derive(Clone, Copy, Debug, PartialEq, Eq, Structural)]
pub enum Method {
    Get,
    Post,
}

/// What answers a request.
#[derive(Clone, Copy, Debug, PartialEq, Eq, Structural)]
pub enum Handler {
    /// Takes the credentials of a network.
    Credentials,
    /// Lists the networks in reach.
    Networks,
    /// Serves the setup page.
    Page,
}

/// One registered address.
#[derive(Clone, Copy, Debug)]
pub struct Route {
    pub path: &'static str,
    pub method: Method,
    pub handler: Handler,
}

/// The addresses that are served, in the order they are registered. The last one
/// matches everything.
pub fn routes() -> (r: Vec<Route>)
    ensures
        r@.len() == 3,
        r@[0].path@ == "/wifi_credentials"@ && r@[0].method == Method::Post && r@[0].handler
            == Handler::Credentials,
        r@[1].path@ == "/wifi-networks"@ && r@[1].method == Method::Get && r@[1].handler
            == Handler::Networks,
        r@[2].path@ == "/*"@ && r@[2].method == Method::Get && r@[2].handler == Handler::Page,
{
    vec![
        Route {
            path: "/wifi_credentials",
            method: Method::Post,
            handler: Handler::Credentials,
        },
        Route { path: "/wifi-networks", method: Method::Get, handler: Handler::Networks },
        Route { path: "/*", method: Method::Get, handler: Handler::Page },
    ]
}

/// What is sent back.
#[derive(Debug, PartialEq, Eq)]
pub struct Reply {
    pub status: u16,
    pub body: String,
}

/// What to do with a request's body.
#[derive(Debug, PartialEq, Eq)]
pub enum Admission {
    /// Read this many bytes, all of them.
    Read(usize),
    /// Answer with this instead.
    Refuse(Reply),
}

/// The announced length of a body, as far as it fits a length.
pub open spec fn announced(content_len: Option<u64>) -> usize {
    match content_len {
        Some(len) => len as usize,
        None => 0,
    }
}

/// Decides whether a body is read, by the length that was announced for it.
pub fn check_length(content_len: Option<u64>) -> (r: Admission)
    ensures
        if announced(content_len) > MAX_REQ_LEN {
            r matches Admission::Refuse(reply) && reply.status == 413 && reply.body@
                == "Request too big"@
        } else {
            r == Admission::Read(announced(content_len))
        },
{
    let len: usize = match content_len {
        Some(len) => len as usize,
        None => 0,
    };
    if len > MAX_REQ_LEN {
        Admission::Refuse(Reply { status: 413, body: String::from_str("Request too big") })
    } else {
        Admission::Read(len)
    }
}

/// Credentials from the setup form.
#[derive(Debug, PartialEq, Eq)]
pub struct WifiFormData {
    pub ssid: String,
    pub password: String,
}

/// Answers the setup form. `None` stands for a body that is not a form.
pub fn credentials_reply(form: &Option<WifiFormData>) -> (r: Reply)
    ensures
        r.status == 200,
        r.body@ == match *form {
            Some(form) => "WIFI: "@ + form.ssid@ + ", "@ + form.password@,
            None => "JSON error"@,
        },
{
    let body: String = match form {
        Some(form) => {
            let mut s: String = String::from_str("WIFI: ");
            s.append(form.ssid.as_str());
            s.append(", ");
            s.append(form.password.as_str());
            s
        },
        None => String::from_str("JSON error"),
    };
    Reply { status: 200, body }
}

/// The first `n` entries of the list of networks, each with what goes behind it.
/// One that could not be put into JSON leaves a note, and no comma.
pub open spec fn entries(items: Seq<Option<String>>, n: int) -> Seq<char>
    decreases n,
{
    if n <= 0 {
        Seq::empty()
    } else {
        entries(items, n - 1) + match items[n - 1] {
            Some(json) => if n < items.len() {
                json@ + ", "@
            } else {
                json@
            },
            None => "JSON error"@,
        }
    }
}

/// Answers with the list of networks, each already put into JSON, or `None` where
/// that failed.
pub fn networks_reply(items: &Vec<Option<String>>) -> (r: Reply)
    ensures
        r.status == 200,
        r.body@ == "["@ + entries(items@, items@.len() as int) + "]"@,
{
    let mut body: String = String::from_str("[");
    let mut i: usize = 0;
    assert(body@ =~= "["@ + entries(items@, 0));
    while i < items.len()
        invariant
            i <= items@.len(),
            body@ == "["@ + entries(items@, i as int),
        decreases items@.len() - i,
    {
        match &items[i] {
            Some(json) => {
                body.append(json.as_str());
                if i < items.len() - 1 {
                    body.append(", ");
                }
            },
            None => {
                body.append("JSON error");
            },
        }
        i += 1;
        assert(body@ =~= "["@ + entries(items@, i as int));
    }
    body.append("]");
    Reply { status: 200, body }
}

/// Answers everything else with the setup page.
pub fn page_reply(page: &str) -> (r: Reply)
    ensures
        r.status == 200,
        r.body@ == page@,
{
    Reply { status: 200, body: String::from_str(page) }
}

/// Texts with `, ` between them.
pub open spec fn listed(items: Seq<Seq<char>>) -> Seq<char>
    decreases items.len(),
{
    if items.len() == 0 {
        Seq::empty()
    } else if items.len() == 1 {
        items[0]
    } else {
        listed(items.drop_last()) + ", "@ + items.last()
    }
}

/// Where every network could be put into JSON, the list is a JSON array: the
/// entries in order, with a comma between each two.
pub proof fn law_networks_listed(items: Seq<Option<String>>)
    requires
        forall|i: int| 0 <= i < items.len() ==> #[trigger] items[i] is Some,
    ensures
        entries(items, items.len() as int) == listed(
            Seq::new(items.len(), |i: int| items[i]->0@),
        ),
{
    let texts = Seq::new(items.len(), |i: int| items[i]->0@);
    if items.len() == 0 {
        assert(entries(items, 0) =~= listed(texts));
    } else {
        lemma_listed(items, texts, items.len() - 1);
        let n = items.len() as int;
        assert(items[n - 1] is Some);
        assert(texts.take(n - 1) =~= texts.drop_last());
        if n == 1 {
            assert(entries(items, 0) =~= Seq::empty());
            assert(entries(items, 1) =~= texts[0]);
        } else {
            assert(texts.last() == items[n - 1]->0@);
            assert(entries(items, n) =~= listed(texts));
        }
    }
}

proof fn lemma_listed(items: Seq<Option<String>>, texts: Seq<Seq<char>>, n: int)
    requires
        forall|i: int| 0 <= i < items.len() ==> #[trigger] items[i] is Some,
        texts.len() == items.len(),
        forall|i: int| 0 <= i < items.len() ==> #[trigger] texts[i] == items[i]->0@,
        0 <= n < items.len(),
    ensures
        entries(items, n) == (if n == 0 {
            Seq::empty()
        } else {
            listed(texts.take(n)) + ", "@
        }),
    decreases n,
{
    if n > 0 {
        lemma_listed(items, texts, n - 1);
        assert(items[n - 1] is Some);
        assert(texts.take(n).drop_last() =~= texts.take(n - 1));
        assert(texts.take(n).last() == texts[n - 1]);
        if n == 1 {
            assert(entries(items, 0) =~= Seq::empty());
            assert(texts.take(1)[0] == texts[0]);
        }
        assert(entries(items, n) =~= listed(texts.take(n)) + ", "@);
    }
}

/// The reply lists one piece for each network, in order and with nothing between
/// them: what was put into JSON, with a comma behind it unless it is the last of
/// all, and a note where that failed.
pub proof fn law_entry_for_each(items: Seq<Option<String>>)
    ensures
        entries(items, items.len() as int) == Seq::new(
            items.len(),
            |i: int|
                match items[i] {
                    Some(json) => json@ + (if i == items.len() - 1 {
                        ""@
                    } else {
                        ", "@
                    }),
                    None => "JSON error"@,
                },
        ).flatten_alt(),
{
    lemma_entries(items, items.len() as int);
}

proof fn lemma_entries(items: Seq<Option<String>>, n: int)
    requires
        0 <= n <= items.len(),
    ensures
        entries(items, n) == Seq::new(
            n as nat,
            |i: int|
                match items[i] {
                    Some(json) => json@ + (if i == items.len() - 1 {
                        ""@
                    } else {
                        ", "@
                    }),
                    None => "JSON error"@,
                },
        ).flatten_alt(),
    decreases n,
{
    let piece = |i: int|
        match items[i] {
            Some(json) => json@ + (if i == items.len() - 1 {
                ""@
            } else {
                ", "@
            }),
            None => "JSON error"@,
        };
    let pieces = Seq::new(n as nat, piece);
    if n > 0 {
        lemma_entries(items, n - 1);
        assert(pieces.drop_last() =~= Seq::new((n - 1) as nat, piece));
        reveal_strlit("");
        if let Some(json) = items[n - 1] {
            assert(json@ + ""@ =~= json@);
        }
        assert(pieces.last() == piece(n - 1));
    }
}

/// The length that counts is the announced one; where none is announced it is
/// zero.
pub proof fn law_announced(len: u64)
    ensures
        announced(None) == 0,
        len <= 0xFFFF_FFFF ==> announced(Some(len)) == len,
        len <= usize::MAX ==> announced(Some(len)) == len,
{
}

/// A body is read whole if the length announced for it is at most 128 bytes, and
/// refused as too large if it is more, with nothing in between.
pub proof fn law_length_limit(len: u64, r: Admission)
    requires
        len <= 0xFFFF_FFFF,
        call_ensures(check_length, (Some(len),), r),
    ensures
        r == Admission::Read(len as usize) <==> len <= 128,
        r is Refuse <==> len > 128,
        r matches Admission::Refuse(reply) ==> reply.status == 413 && reply.body@
            == "Request too big"@,
{
}

/// The reply to a form names both of its fields, as they are.
pub proof fn law_credentials_echoed(form: Option<WifiFormData>, r: Reply)
    requires
        call_ensures(credentials_reply, (&form,), r),
    ensures
        r.status == 200,
        form matches Some(f) ==> {
            let n = f.ssid@.len() as int;
            &&& r.body@.len() == 8 + n + f.password@.len()
            &&& r.body@.take(6) == "WIFI: "@
            &&& r.body@.subrange(6, 6 + n) == f.ssid@
            &&& r.body@.subrange(6 + n, 8 + n) == ", "@
            &&& r.body@.skip(8 + n) == f.password@
        },
        form is None ==> r.body@ == "JSON error"@,
{
    reveal_strlit("WIFI: ");
    reveal_strlit(", ");
    if let Some(f) = form {
        let n = f.ssid@.len() as int;
        assert(r.body@.take(6) =~= "WIFI: "@);
        assert(r.body@.subrange(6, 6 + n) =~= f.ssid@);
        assert(r.body@.subrange(6 + n, 8 + n) =~= ", "@);
        assert(r.body@.skip(8 + n) =~= f.password@);
    }
}

} // verus!
