//! The Wikipedia "parse" API as the crawler uses it: the query that asks for
//! a page's links, and the titles that the crawler follows in the answer.
use vstd::prelude::*;
use crate::order::titles_of;

verus! {

/// One link of a page, as the API lists it.
pub struct Link {
    /// The namespace of the linked page; articles are in namespace 0.
    pub ns: u32,
    /// Present when the linked page exists.
    pub exists: Option<String>,
    /// The title of the linked page.
    pub title: String,
}

/// The answer to a successful query.
pub struct ParseResponse {
    pub links: Vec<Link>,
}

/// The answer to a failed query.
pub struct ErrorResponse {
    pub info: String,
}

/// An answer of the API: either the page's links or an error.
pub enum Response {
    Parse(ParseResponse),
    Error(ErrorResponse),
}

/// The query prefix; the page title follows it.
pub open spec fn query_prefix() -> Seq<char> {
    "http://en.wikipedia.org/w/api.php?action=parse&format=json&prop=links&page="@
}

/// The address of the query that asks for the links of `title`.
pub fn page_links_url(title: &str) -> (url: String)
    ensures
        url@ == query_prefix() + title@,
{
    let mut url = String::from_str(
        "http://en.wikipedia.org/w/api.php?action=parse&format=json&prop=links&page=",
    );
    url.append(title);
    url
}

/// Whether the crawler follows a link: an existing article.
pub open spec fn is_followed(link: Link) -> bool {
    link.ns == 0 && link.exists is Some
}

/// The titles of the followed links, in the order of the answer.
pub open spec fn followed_titles(links: Seq<Link>) -> Seq<Seq<char>>
    decreases links.len(),
{
    if links.len() == 0 {
        Seq::empty()
    } else {
        let rest = followed_titles(links.drop_last());
        if is_followed(links.last()) {
            rest.push(links.last().title@)
        } else {
            rest
        }
    }
}

/// The titles that an answer of the API yields: the followed links of a
/// successful answer, or the error's message.
pub fn page_links_from_response(parsed: Response) -> (titles: Result<Vec<String>, String>)
    ensures
        match parsed {
            Response::Error(e) => titles == Err::<Vec<String>, String>(e.info),
            Response::Parse(p) => titles is Ok && titles_of(titles->Ok_0@) == followed_titles(
                p.links@,
            ) && forall|t: Seq<char>|
                titles_of(titles->Ok_0@).contains(t) <==> exists|k: int|
                    0 <= k < p.links@.len() && (#[trigger] p.links@[k]).ns == 0
                        && p.links@[k].exists is Some && p.links@[k].title@ == t,
        },
{
    match parsed {
        Response::Error(ErrorResponse { info }) => Err(info),
        Response::Parse(parse) => {
            let mut titles: Vec<String> = Vec::new();
            let mut i: usize = 0;
            assert(parse.links@.take(0) =~= Seq::<Link>::empty());
            assert(titles_of(titles@) =~= Seq::<Seq<char>>::empty());
            while i < parse.links.len()
                invariant
                    i <= parse.links@.len(),
                    titles_of(titles@) == followed_titles(parse.links@.take(i as int)),
                decreases parse.links@.len() - i,
            {
                let link = &parse.links[i];
                let ghost before = titles_of(titles@);
                assert(parse.links@.take(i + 1).drop_last() =~= parse.links@.take(i as int));
                if link.ns == 0 && link.exists.is_some() {
                    titles.push(link.title.clone());
                    assert(titles_of(titles@) =~= before.push(link.title@));
                }
                i += 1;
            }
            assert(parse.links@.take(i as int) =~= parse.links@);
            proof {
                assert forall|t: Seq<char>|
                    titles_of(titles@).contains(t) <==> exists|k: int|
                        0 <= k < parse.links@.len() && (#[trigger] parse.links@[k]).ns == 0
                            && parse.links@[k].exists is Some && parse.links@[k].title@ == t by {
                    lemma_followed_titles_members(parse.links@, t);
                    lemma_followed_is_existing_article(parse.links@, t);
                }
            }
            Ok(titles)
        },
    }
}

/// A title is followed exactly when some link with that title is an
/// existing article, and the followed titles keep the answer's order.
pub proof fn lemma_followed_titles_members(links: Seq<Link>, t: Seq<char>)
    ensures
        followed_titles(links).contains(t) <==> exists|k: int|
            0 <= k < links.len() && is_followed(#[trigger] links[k]) && links[k].title@ == t,
        followed_titles(links).len() <= links.len(),
    decreases links.len(),
{
    if links.len() > 0 {
        let init = links.drop_last();
        lemma_followed_titles_members(init, t);
        let rest = followed_titles(init);
        if followed_titles(links).contains(t) {
            if rest.contains(t) {
                let k = choose|k: int|
                    0 <= k < init.len() && is_followed(#[trigger] init[k]) && init[k].title@ == t;
                assert(links[k] == init[k]);
            } else {
                let j = choose|j: int| 0 <= j < followed_titles(links).len() && followed_titles(links)[j] == t;
                assert(is_followed(links.last()));
                assert(links[links.len() - 1] == links.last());
            }
        }
        if exists|k: int|
            0 <= k < links.len() && is_followed(#[trigger] links[k]) && links[k].title@ == t {
            let k = choose|k: int|
                0 <= k < links.len() && is_followed(#[trigger] links[k]) && links[k].title@ == t;
            if k < links.len() - 1 {
                assert(init[k] == links[k]);
                let j = choose|j: int| 0 <= j < rest.len() && rest[j] == t;
                if is_followed(links.last()) {
                    assert(rest.push(links.last().title@)[j] == t);
                }
            } else {
                assert(followed_titles(links) == rest.push(t));
                assert(rest.push(t)[rest.len() as int] == t);
            }
        }
    }
}

/// A link is followed exactly when it is an existing page in namespace 0:
/// a link in any other namespace, or to a missing page, is never followed.
pub proof fn lemma_is_followed_literal(link: Link)
    ensures
        is_followed(link) <==> (link.ns == 0 && link.exists is Some),
        link.ns != 0 ==> !is_followed(link),
        link.exists is None ==> !is_followed(link),
{
}

/// A title is among the followed titles exactly when some link with that
/// title is an existing page in namespace 0.
pub proof fn lemma_followed_is_existing_article(links: Seq<Link>, t: Seq<char>)
    ensures
        followed_titles(links).contains(t) <==> exists|k: int|
            0 <= k < links.len() && (#[trigger] links[k]).ns == 0 && links[k].exists is Some
                && links[k].title@ == t,
{
    lemma_followed_titles_members(links, t);
    if followed_titles(links).contains(t) {
        let k = choose|k: int|
            0 <= k < links.len() && is_followed(#[trigger] links[k]) && links[k].title@ == t;
        lemma_is_followed_literal(links[k]);
    }
    if exists|k: int|
        0 <= k < links.len() && (#[trigger] links[k]).ns == 0 && links[k].exists is Some
            && links[k].title@ == t {
        let k = choose|k: int|
            0 <= k < links.len() && (#[trigger] links[k]).ns == 0 && links[k].exists is Some
                && links[k].title@ == t;
        lemma_is_followed_literal(links[k]);
        assert(is_followed(links[k]));
    }
}

/// When every link is an existing article, the crawler follows them all,
/// in order.
pub proof fn lemma_all_followed(links: Seq<Link>)
    requires
        forall|k: int| 0 <= k < links.len() ==> is_followed(#[trigger] links[k]),
    ensures
        followed_titles(links) == links.map_values(|l: Link| l.title@),
    decreases links.len(),
{
    if links.len() > 0 {
        let init = links.drop_last();
        assert forall|k: int| 0 <= k < init.len() implies is_followed(#[trigger] init[k]) by {
            assert(init[k] == links[k]);
        }
        lemma_all_followed(init);
        assert(is_followed(links[links.len() - 1]));
        assert(links.map_values(|l: Link| l.title@) =~= init.map_values(|l: Link| l.title@).push(
            links.last().title@,
        ));
    }
}

} // verus!
