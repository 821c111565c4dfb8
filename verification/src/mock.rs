//! A mock of the Wikipedia "parse" API for testing the crawler: every page
//! links to five made-up pages, except two pages that answer with an injected
//! failure.
use vstd::prelude::*;
use std::hash::DefaultHasher;
use std::hash::Hasher;
use vstd::std_specs::hash::DefaultHasherAdditionalSpecFns;
use vstd::utf8::encode_utf8;

verus! {

/// The output format that a query asks for.
#[derive(PartialEq, Eq, Structural, Debug, Clone, Copy)]
pub enum Format {
    Json,
}

/// The page property that a query asks for.
#[derive(PartialEq, Eq, Structural, Debug, Clone, Copy)]
pub enum Prop {
    Links,
}

/// A query to the mock API.
pub enum Query {
    Parse { format: Format, prop: Prop, page: String },
}

/// One link in an answer.
pub struct Link {
    pub ns: u64,
    pub exists: Option<String>,
    pub title: String,
}

/// The parsed page: its title, its id and its links.
pub struct ParseAnswer {
    pub title: String,
    pub pageid: u64,
    pub links: Vec<Link>,
}

/// A successful answer.
pub struct Answer {
    pub parse: ParseAnswer,
}

/// The reply to a query: a plain body with an HTTP status, or an answer that
/// is sent as JSON with status 200.
pub enum Reply {
    Plain { status: u16, body: String },
    Json(Answer),
}

/// The page whose query fails with "not found".
pub open spec fn not_found_page() -> Seq<char> {
    "Rust (programming language)-1-2"@
}

/// The page whose query answers with JSON of the wrong shape.
pub open spec fn malformed_page() -> Seq<char> {
    "Rust (programming language)-2-1"@
}

/// The body of the "not found" reply.
pub open spec fn not_found_body() -> Seq<char> {
    "Injected NOT_FOUND, for testing"@
}

/// The body of the malformed reply.
pub open spec fn malformed_body() -> Seq<char> {
    "{ \"zloop\": \"murf\" }"@
}

/// HTTP status "not found".
pub const NOT_FOUND: u16 = 404;

/// HTTP status "OK".
pub const OK: u16 = 200;

/// The number of links of every page.
pub const LINKS_PER_PAGE: u64 = 5;

/// The character of a decimal digit.
pub open spec fn digit_char(d: int) -> char {
    seq!['0', '1', '2', '3', '4', '5', '6', '7', '8', '9'][d]
}

/// The decimal notation of `n`, without leading zeros.
pub open spec fn decimal(n: nat) -> Seq<char>
    decreases n,
{
    if n < 10 {
        seq![digit_char(n as int)]
    } else {
        decimal(n / 10).push(digit_char((n % 10) as int))
    }
}

/// The title of the `i`-th made-up page that `page` links to.
pub open spec fn link_title(page: Seq<char>, i: nat) -> Seq<char> {
    page + "-"@ + decimal(i)
}

/// The id of a page: its title hashed by `std`'s default hasher, as
/// `str`'s `Hash` feeds it: the UTF-8 bytes, then the byte 0xff.
pub open spec fn page_hash(page: Seq<char>) -> u64 {
    DefaultHasher::spec_finish(seq![encode_utf8(page), seq![0xffu8]])
}

/// The answer for `page` when its id is `pageid`: the page's title and id,
/// and five links `page-1` to `page-5`, each an existing article.
pub open spec fn is_answer_for(answer: Answer, page: Seq<char>, pageid: u64) -> bool {
    &&& answer.parse.title@ == page
    &&& answer.parse.pageid == pageid
    &&& answer.parse.links@.len() == LINKS_PER_PAGE
    &&& forall|i: int|
        0 <= i < LINKS_PER_PAGE ==> {
            let link = #[trigger] answer.parse.links@[i];
            &&& link.ns == 0
            &&& link.exists matches Some(e) && e@ == Seq::<char>::empty()
            &&& link.title@ == link_title(page, (i + 1) as nat)
        }
}

/// The reply to a query for `page`, given the page's id.
pub open spec fn is_reply_for(reply: Reply, page: Seq<char>, pageid: u64) -> bool {
    if page == not_found_page() {
        reply matches Reply::Plain { status, body } && status == NOT_FOUND && body@
            == not_found_body()
    } else if page == malformed_page() {
        reply matches Reply::Plain { status, body } && status == OK && body@ == malformed_body()
    } else {
        reply matches Reply::Json(answer) && is_answer_for(answer, page, pageid)
    }
}

/// What the mock answers, stated with its literal pages: the page
/// "Rust (programming language)-1-2" and no other gets status 404 with the
/// injected body; "Rust (programming language)-2-1" and no other gets status
/// 200 with the malformed body; every other page gets an answer with its own
/// title and id and the five existing articles `page-1` to `page-5`.
pub proof fn lemma_mock_replies(reply: Reply, page: Seq<char>, pageid: u64)
    requires
        is_reply_for(reply, page, pageid),
    ensures
        page == "Rust (programming language)-1-2"@ ==> reply is Plain && reply->status == 404
            && reply->body@ == "Injected NOT_FOUND, for testing"@,
        page == "Rust (programming language)-2-1"@ && page != "Rust (programming language)-1-2"@
            ==> reply is Plain && reply->status == 200 && reply->body@
            == "{ \"zloop\": \"murf\" }"@,
        reply is Plain && reply->status == 404 ==> page == "Rust (programming language)-1-2"@,
        reply is Plain ==> page == "Rust (programming language)-1-2"@ || page
            == "Rust (programming language)-2-1"@,
        page != "Rust (programming language)-1-2"@ && page != "Rust (programming language)-2-1"@
            ==> reply is Json && reply->0.parse.title@ == page && reply->0.parse.pageid == pageid
            && reply->0.parse.links@.len() == 5 && forall|i: int|
            0 <= i < 5 ==> {
                let link = #[trigger] reply->0.parse.links@[i];
                &&& link.ns == 0
                &&& link.exists is Some
                &&& link.exists->0@ == Seq::<char>::empty()
                &&& link.title@ == page + "-"@ + seq![seq!['1', '2', '3', '4', '5'][i]]
            },
{
    if page != not_found_page() && page != malformed_page() {
        let answer = reply->0;
        assert forall|i: int| 0 <= i < 5 implies {
            let link = #[trigger] answer.parse.links@[i];
            &&& link.ns == 0
            &&& link.exists is Some
            &&& link.exists->0@ == Seq::<char>::empty()
            &&& link.title@ == page + "-"@ + seq![seq!['1', '2', '3', '4', '5'][i]]
        } by {
            let link = answer.parse.links@[i];
            assert(link.title@ == link_title(page, (i + 1) as nat));
            assert(decimal((i + 1) as nat) == seq![digit_char(i + 1)]);
            assert(digit_char(i + 1) == seq!['1', '2', '3', '4', '5'][i]);
        }
    }
}

/// The text of a decimal digit.
fn digit_str(d: u64) -> (text: &'static str)
    requires
        d < 10,
    ensures
        text@ == seq![digit_char(d as int)],
{
    proof {
        reveal_strlit("0");
        reveal_strlit("1");
        reveal_strlit("2");
        reveal_strlit("3");
        reveal_strlit("4");
        reveal_strlit("5");
        reveal_strlit("6");
        reveal_strlit("7");
        reveal_strlit("8");
        reveal_strlit("9");
    }
    match d {
        0 => "0",
        1 => "1",
        2 => "2",
        3 => "3",
        4 => "4",
        5 => "5",
        6 => "6",
        7 => "7",
        8 => "8",
        _ => "9",
    }
}

/// The decimal notation of `n`, as `format!("{n}")` writes it.
pub fn decimal_string(n: u64) -> (text: String)
    ensures
        text@ == decimal(n as nat),
    decreases n,
{
    if n < 10 {
        String::from_str(digit_str(n))
    } else {
        let mut text = decimal_string(n / 10);
        text.append(digit_str(n % 10));
        text
    }
}

/// The title of the `i`-th made-up page that `page` links to: `page-i`.
pub fn link_title_string(page: &str, i: u64) -> (title: String)
    ensures
        title@ == link_title(page@, i as nat),
{
    let mut title = String::from_str(page);
    title.append("-");
    let number = decimal_string(i);
    title.append(number.as_str());
    title
}

/// The id of `page`: its hash by `std`'s default hasher.
pub fn page_id(page: &str) -> (id: u64)
    ensures
        id == page_hash(page@),
{
    let mut hasher = DefaultHasher::new();
    hasher.write(page.as_bytes());
    let end: [u8; 1] = [0xff];
    let end_bytes = end.as_slice();
    hasher.write(end_bytes);
    proof {
        assert(end_bytes@ =~= seq![0xffu8]);
        assert(hasher@ =~= seq![encode_utf8(page@), seq![0xffu8]]);
    }
    hasher.finish()
}

/// The answer for `page`, whose id is `pageid`.
pub fn parse_answer(page: String, pageid: u64) -> (answer: Answer)
    ensures
        is_answer_for(answer, page@, pageid),
{
    let mut links: Vec<Link> = Vec::new();
    let mut i: u64 = 1;
    while i <= LINKS_PER_PAGE
        invariant
            1 <= i <= LINKS_PER_PAGE + 1,
            links@.len() == i - 1,
            forall|k: int|
                0 <= k < links@.len() ==> {
                    let link = #[trigger] links@[k];
                    &&& link.ns == 0
                    &&& link.exists matches Some(e) && e@ == Seq::<char>::empty()
                    &&& link.title@ == link_title(page@, (k + 1) as nat)
                },
        decreases LINKS_PER_PAGE + 1 - i,
    {
        let title = link_title_string(page.as_str(), i);
        links.push(Link { ns: 0, exists: Some(String::new()), title });
        i += 1;
    }
    Answer { parse: ParseAnswer { title: page, pageid, links } }
}

/// The reply of the mock API to a query for the links of `page`.
pub fn parse(page: String, _format: Format, _prop: Prop) -> (reply: Reply)
    ensures
        is_reply_for(reply, page@, page_hash(page@)),
        reply is Plain && reply->status == 404 ==> page@ == "Rust (programming language)-1-2"@,
        page@ != "Rust (programming language)-1-2"@ && page@
            != "Rust (programming language)-2-1"@ ==> reply is Json && is_answer_for(
            reply->0,
            page@,
            page_hash(page@),
        ),
{
    let not_found = String::from_str("Rust (programming language)-1-2");
    if page == not_found {
        return Reply::Plain {
            status: NOT_FOUND,
            body: String::from_str("Injected NOT_FOUND, for testing"),
        };
    }
    let malformed = String::from_str("Rust (programming language)-2-1");
    if page == malformed {
        return Reply::Plain { status: OK, body: String::from_str("{ \"zloop\": \"murf\" }") };
    }
    let pageid = page_id(page.as_str());
    Reply::Json(parse_answer(page, pageid))
}

/// The reply of the mock API to a query.
pub fn handle_query(query: Query) -> (reply: Reply)
    ensures
        match query {
            Query::Parse { page, .. } => is_reply_for(reply, page@, page_hash(page@)),
        },
{
    match query {
        Query::Parse { format, prop, page } => parse(page, format, prop),
    }
}

/// The crawler follows every link of a mock answer, in order: links read
/// from the answer with the same namespace, existence and title yield the
/// titles `page-1` to `page-5`.
pub proof fn lemma_crawler_follows_mock_links(
    answer: Answer,
    page: Seq<char>,
    pageid: u64,
    read: Seq<crate::links::Link>,
)
    requires
        is_answer_for(answer, page, pageid),
        read.len() == answer.parse.links@.len(),
        forall|k: int|
            0 <= k < read.len() ==> {
                let sent = answer.parse.links@[k];
                &&& (#[trigger] read[k]).ns as u64 == sent.ns
                &&& (read[k].exists is Some) == (sent.exists is Some)
                &&& read[k].title@ == sent.title@
            },
    ensures
        crate::links::followed_titles(read) == Seq::new(
            LINKS_PER_PAGE as nat,
            |i: int| link_title(page, (i + 1) as nat),
        ),
{
    assert forall|k: int| 0 <= k < read.len() implies crate::links::is_followed(
        #[trigger] read[k],
    ) by {
        let sent = answer.parse.links@[k];
        assert(sent.ns == 0);
    }
    crate::links::lemma_all_followed(read);
    assert(read.map_values(|l: crate::links::Link| l.title@) =~= Seq::new(
        LINKS_PER_PAGE as nat,
        |i: int| link_title(page, (i + 1) as nat),
    ));
}

} // verus!
