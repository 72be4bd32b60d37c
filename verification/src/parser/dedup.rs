//! Collapse resources whose bytes are identical, after all pages are assembled.
//!
//! A PDF can share one image XObject across every page (a running-header logo is the ordinary
//! case), but resources are keyed by page and name, a key space with no way to say "the same
//! image". So one logo in a 40-page document would be 40 resource entries and 40 copies in
//! `page.images`.
//!
//! This is a pass over the finished document. Walking the assembled pages in order makes the
//! winner the first occurrence in reading order, always. The resources of the document have
//! keys without the extension that image ids carry. The same rule holds of them: they come in
//! the order of the images that they belong to.

use std::collections::HashMap;

use vstd::prelude::*;

use super::raw::ascii::same_bytes;
use super::raw::cipher;
use super::raw::cipher::md5;
use super::raw::numbers;
use super::raw::numbers::wide_number;
use crate::count;
use crate::count::count_up;
use crate::model;
use crate::model::{
    Block, BlockSpec, Document, DocumentSpec, Page, PageSpec, Resource, ResourceSpec, Resources,
};

verus! {

/// The digest of `data`, its sixteen bytes taken as one number.
pub open spec fn digest_of(data: Seq<u8>) -> u128 {
    numbers::be_value(cipher::md5_digest(data)) as u128
}

/// The images of all pages, page by page.
pub open spec fn all_images(pages: Seq<PageSpec>) -> Seq<(Seq<char>, ResourceSpec)>
    decreases pages.len(),
{
    if pages.len() == 0 {
        Seq::empty()
    } else {
        all_images(pages.drop_last()) + pages.last().images
    }
}

/// The digest of each resource.
pub open spec fn digests_of(s: Seq<(Seq<char>, ResourceSpec)>) -> Seq<u128> {
    Seq::new(s.len(), |i: int| digest_of(s[i].1.data))
}

/// Which images keep their id, and which defer to another.
pub struct Election {
    /// By digest, the id and the bytes of the first image with that digest.
    pub winners: Map<u128, (Seq<char>, Seq<u8>)>,
    /// Every id that turned out to be a duplicate, and the id it defers to.
    pub alias: Map<Seq<char>, Seq<char>>,
}

/// `e` once the image `id` with the bytes `data` and the digest `d` was looked at.
///
/// Bytes decide, not the digest alone: of two different images with one digest, both stay.
pub open spec fn considered(e: Election, id: Seq<char>, data: Seq<u8>, d: u128) -> Election {
    if data.len() == 0 || e.alias.contains_key(id) {
        e
    } else if !e.winners.contains_key(d) {
        Election { winners: e.winners.insert(d, (id, data)), alias: e.alias }
    } else if e.winners[d].1 == data && e.winners[d].0 != id {
        Election { winners: e.winners, alias: e.alias.insert(id, e.winners[d].0) }
    } else {
        e
    }
}

/// The election among `images` with these digests, in order.
pub open spec fn elected(images: Seq<(Seq<char>, ResourceSpec)>, digests: Seq<u128>) -> Election
    decreases images.len(),
{
    if images.len() == 0 {
        Election { winners: Map::empty(), alias: Map::empty() }
    } else {
        considered(
            elected(images.drop_last(), digests.drop_last()),
            images.last().0,
            images.last().1.data,
            digests.last(),
        )
    }
}

/// The ids that defer to another, in a document with these pages.
pub open spec fn aliases(pages: Seq<PageSpec>) -> Map<Seq<char>, Seq<char>> {
    elected(all_images(pages), digests_of(all_images(pages))).alias
}

/// `b` with the id that its own defers to.
pub open spec fn redirected(b: BlockSpec, alias: Map<Seq<char>, Seq<char>>) -> BlockSpec {
    match b {
        BlockSpec::Image(id, alt) => if alias.contains_key(id) {
            BlockSpec::Image(alias[id], alt)
        } else {
            b
        },
        _ => b,
    }
}

/// `s` without the images whose id defers to another.
pub open spec fn kept_images(
    s: Seq<(Seq<char>, ResourceSpec)>,
    alias: Map<Seq<char>, Seq<char>>,
) -> Seq<(Seq<char>, ResourceSpec)>
    decreases s.len(),
{
    if s.len() == 0 {
        Seq::empty()
    } else if alias.contains_key(s[0].0) {
        kept_images(s.skip(1), alias)
    } else {
        seq![s[0]] + kept_images(s.skip(1), alias)
    }
}

/// A page without duplicates.
pub open spec fn collapsed_page(p: PageSpec, alias: Map<Seq<char>, Seq<char>>) -> PageSpec {
    PageSpec {
        number: p.number,
        elements: Seq::new(p.elements.len(), |i: int| redirected(p.elements[i], alias)),
        images: kept_images(p.images, alias),
    }
}

/// How many images pages lose to `alias`.
pub open spec fn lost_images(pages: Seq<PageSpec>, alias: Map<Seq<char>, Seq<char>>) -> nat
    decreases pages.len(),
{
    if pages.len() == 0 {
        0
    } else {
        lost_images(pages.drop_last(), alias) + (pages.last().images.len() - kept_images(
            pages.last().images,
            alias,
        ).len()) as nat
    }
}

/// The place of the last dot in `s`, or -1.
pub open spec fn last_dot(s: Seq<u8>) -> int
    decreases s.len(),
{
    if s.len() == 0 {
        -1
    } else if s.last() == '.' as u8 {
        s.len() - 1
    } else {
        last_dot(s.drop_last())
    }
}

/// `s` without its extension.
pub open spec fn stem(s: Seq<u8>) -> Seq<u8> {
    if last_dot(s) >= 0 {
        s.take(last_dot(s))
    } else {
        s
    }
}

/// Whether the image `id` belongs to the resource under `key`: the key is the id without its
/// extension.
pub open spec fn belongs_to(id: Seq<char>, key: Seq<char>) -> bool {
    stem(vstd::utf8::encode_utf8(id)) == vstd::utf8::encode_utf8(key)
}

/// The place of the first of `images` that belongs to the resource under `key`.
pub open spec fn turn_of(images: Seq<(Seq<char>, ResourceSpec)>, key: Seq<char>) -> Option<nat>
    decreases images.len(),
{
    if images.len() == 0 {
        None
    } else {
        match turn_of(images.drop_last(), key) {
            Some(i) => Some(i),
            None => if belongs_to(images.last().0, key) {
                Some((images.len() - 1) as nat)
            } else {
                None
            },
        }
    }
}

/// When each of `s` has its turn.
pub open spec fn turns_of(
    s: Seq<(Seq<char>, ResourceSpec)>,
    images: Seq<(Seq<char>, ResourceSpec)>,
) -> Seq<Option<nat>> {
    Seq::new(s.len(), |i: int| turn_of(images, s[i].0))
}

/// Whether the resource at `i` comes before the one at `j` in reading order: in the order of
/// the images that they belong to, and after those the resources that no image belongs to, in
/// the order of the keys.
pub open spec fn comes_first(turns: Seq<Option<nat>>, i: int, j: int) -> bool {
    match (turns[i], turns[j]) {
        (Some(m), Some(n)) => m < n || m == n && i < j,
        (Some(_), None) => true,
        (None, Some(_)) => false,
        (None, None) => i < j,
    }
}

/// Whether the resource at `i` comes before all others with its digest. Resources without
/// bytes do not count.
pub open spec fn is_first(
    s: Seq<(Seq<char>, ResourceSpec)>,
    digests: Seq<u128>,
    turns: Seq<Option<nat>>,
    i: int,
) -> bool {
    &&& 0 <= i < s.len()
    &&& s[i].1.data.len() > 0
    &&& forall|j: int|
        0 <= j < s.len() && j != i && (#[trigger] s[j]).1.data.len() > 0 && digests[j]
            == digests[i] ==> comes_first(turns, i, j)
}

/// Whether the resource at `i` is a copy: it has bytes, and the first one with its digest is
/// another one with the same bytes.
pub open spec fn is_copy(
    s: Seq<(Seq<char>, ResourceSpec)>,
    digests: Seq<u128>,
    turns: Seq<Option<nat>>,
    i: int,
) -> bool {
    s[i].1.data.len() > 0 && exists|j: int| #[trigger]
        is_first(s, digests, turns, j) && j != i && digests[j] == digests[i] && s[j].1.data
            == s[i].1.data
}

/// What is kept of the first `n` of `s`: all but the copies.
pub open spec fn kept_up_to(
    s: Seq<(Seq<char>, ResourceSpec)>,
    digests: Seq<u128>,
    turns: Seq<Option<nat>>,
    n: int,
) -> Seq<(Seq<char>, ResourceSpec)>
    decreases n,
{
    if n <= 0 {
        Seq::empty()
    } else if is_copy(s, digests, turns, n - 1) {
        kept_up_to(s, digests, turns, n - 1)
    } else {
        kept_up_to(s, digests, turns, n - 1).push(s[n - 1])
    }
}

/// What is kept of `s`, whose digests and turns these are: all but the copies of one that comes
/// before them in reading order.
pub open spec fn kept_resources(
    s: Seq<(Seq<char>, ResourceSpec)>,
    digests: Seq<u128>,
    turns: Seq<Option<nat>>,
) -> Seq<(Seq<char>, ResourceSpec)> {
    kept_up_to(s, digests, turns, s.len() as int)
}

/// A document without duplicates. Where no image has a duplicate, it stays as it is, resources
/// and all.
pub open spec fn collapsed(doc: DocumentSpec) -> DocumentSpec {
    let alias = aliases(doc.pages);
    if alias.dom() == Set::<Seq<char>>::empty() {
        doc
    } else {
        DocumentSpec {
            pages: Seq::new(doc.pages.len(), |i: int| collapsed_page(doc.pages[i], alias)),
            resources: kept_resources(
                doc.resources,
                digests_of(doc.resources),
                turns_of(doc.resources, all_images(doc.pages)),
            ),
            ai_fallback_count: doc.ai_fallback_count,
        }
    }
}

/// Identity for two resources holding the same picture: a digest, then the bytes themselves.
///
/// The digest alone would be a bet, however good the odds; comparing the bytes on a digest hit
/// costs one comparison per duplicate and removes the question.
fn digest(bytes: &[u8]) -> (d: u128)
    ensures
        d == digest_of(bytes@),
{
    let hash = md5(bytes);
    wide_number(hash.as_slice())
}

/// The id that each alias in `s` defers to.
pub open spec fn alias_view(s: Seq<(String, String)>) -> Map<Seq<char>, Seq<char>>
    decreases s.len(),
{
    if s.len() == 0 {
        Map::empty()
    } else {
        alias_view(s.drop_last()).insert(s.last().0@, s.last().1@)
    }
}

/// The id that `id` defers to.
fn find_alias<'a>(alias: &'a Vec<(String, String)>, id: &String) -> (r: Option<&'a String>)
    ensures
        match r {
            Some(w) => alias_view(alias@).contains_key(id@) && w@ == alias_view(alias@)[id@],
            None => !alias_view(alias@).contains_key(id@),
        },
{
    let mut i: usize = alias.len();
    assert(alias@.take(i as int) =~= alias@);
    while i > 0
        invariant
            i <= alias@.len(),
            alias_view(alias@.take(i as int)).contains_key(id@) == alias_view(alias@).contains_key(
                id@,
            ),
            alias_view(alias@).contains_key(id@) ==> alias_view(alias@.take(i as int))[id@]
                == alias_view(alias@)[id@],
        decreases i,
    {
        i -= 1;
        assert(alias@.take(i + 1).drop_last() =~= alias@.take(i as int));
        if alias[i].0 == *id {
            return Some(&alias[i].1);
        }
    }
    None
}

/// What a list of borrowed resources is.
pub open spec fn borrowed_view(s: Seq<&(String, Resource)>) -> Seq<(Seq<char>, ResourceSpec)> {
    Seq::new(s.len(), |i: int| (s[i].0@, s[i].1@))
}

/// Elects, among `images` with these digests, the ids that stay, and gives the others with the
/// id that each defers to.
pub fn elect(images: &Vec<&(String, Resource)>, digests: &Vec<u128>) -> (alias: Vec<
    (String, String),
>)
    requires
        images@.len() == digests@.len(),
    ensures
        alias_view(alias@) == elected(borrowed_view(images@), digests@).alias,
        alias@.len() == 0 <==> alias_view(alias@).dom() == Set::<Seq<char>>::empty(),
{
    broadcast use vstd::std_specs::hash::group_hash_axioms;

    let ghost all = borrowed_view(images@);
    let mut winners: HashMap<u128, usize> = HashMap::new();
    let mut alias: Vec<(String, String)> = Vec::new();
    let mut i: usize = 0;
    assert(all.take(0) =~= Seq::<(Seq<char>, ResourceSpec)>::empty());
    assert(digests@.take(0) =~= Seq::<u128>::empty());
    while i < images.len()
        invariant
            i <= images@.len(),
            images@.len() == digests@.len(),
            all == borrowed_view(images@),
            alias_view(alias@) == elected(all.take(i as int), digests@.take(i as int)).alias,
            winners@.dom() == elected(all.take(i as int), digests@.take(i as int)).winners.dom(),
            forall|d: u128| #[trigger]
                winners@.contains_key(d) ==> winners@[d] < i && elected(
                    all.take(i as int),
                    digests@.take(i as int),
                ).winners[d] == (all[winners@[d] as int].0, all[winners@[d] as int].1.data),
        decreases images@.len() - i,
    {
        let ghost e = elected(all.take(i as int), digests@.take(i as int));
        proof {
            assert(all.take(i + 1).drop_last() =~= all.take(i as int));
            assert(digests@.take(i + 1).drop_last() =~= digests@.take(i as int));
        }
        let image = images[i];
        let d: u128 = digests[i];
        if image.1.data.len() > 0 && find_alias(&alias, &image.0).is_none() {
            match winners.get(&d) {
                Some(w) => {
                    let winner = images[*w];
                    if same_bytes(winner.1.data.as_slice(), image.1.data.as_slice())
                        && winner.0 != image.0 {
                        let ghost before = alias@;
                        alias.push((image.0.clone(), winner.0.clone()));
                        assert(alias@.drop_last() =~= before);
                    }
                },
                None => {
                    winners.insert(d, i);
                    assert(winners@.dom() =~= e.winners.dom().insert(d));
                },
            }
        }
        i += 1;
    }
    proof {
        assert(all.take(i as int) =~= all);
        assert(digests@.take(i as int) =~= digests@);
        if alias@.len() > 0 {
            assert(alias_view(alias@).dom().contains(alias@.last().0@));
        } else {
            assert(alias_view(alias@).dom() =~= Set::<Seq<char>>::empty());
        }
    }
    alias
}

/// The images of all pages, page by page.
fn collect_images(pages: &Vec<Page>) -> (images: Vec<&(String, Resource)>)
    ensures
        borrowed_view(images@) == all_images(model::pages_view(pages@)),
{
    let ghost all = model::pages_view(pages@);
    let mut images: Vec<&(String, Resource)> = Vec::new();
    let mut i: usize = 0;
    assert(all.take(0) =~= Seq::<PageSpec>::empty());
    assert(borrowed_view(images@) =~= Seq::<(Seq<char>, ResourceSpec)>::empty());
    while i < pages.len()
        invariant
            i <= pages@.len(),
            all == model::pages_view(pages@),
            borrowed_view(images@) == all_images(all.take(i as int)),
        decreases pages@.len() - i,
    {
        let page = &pages[i];
        let ghost before = borrowed_view(images@);
        let mut j: usize = 0;
        assert(before + page@.images.take(0) =~= before);
        while j < page.images.len()
            invariant
                j <= page.images@.len(),
                borrowed_view(images@) == before + page@.images.take(j as int),
            decreases page.images@.len() - j,
        {
            let ghost so_far = borrowed_view(images@);
            images.push(&page.images[j]);
            assert(borrowed_view(images@) =~= so_far.push(page@.images[j as int]));
            assert(borrowed_view(images@) =~= before + page@.images.take(j + 1));
            j += 1;
        }
        proof {
            assert(page@.images.take(j as int) =~= page@.images);
            assert(all.take(i + 1).drop_last() =~= all.take(i as int));
        }
        i += 1;
    }
    assert(all.take(i as int) =~= all);
    images
}

/// The digest of each resource.
fn collect_digests(images: &Vec<&(String, Resource)>) -> (digests: Vec<u128>)
    ensures
        digests@ == digests_of(borrowed_view(images@)),
{
    let mut digests: Vec<u128> = Vec::new();
    let mut i: usize = 0;
    while i < images.len()
        invariant
            i <= images@.len(),
            digests@ =~= digests_of(borrowed_view(images@)).take(i as int),
        decreases images@.len() - i,
    {
        digests.push(digest(images[i].1.data.as_slice()));
        i += 1;
    }
    digests
}

/// Keeping splits over concatenation.
pub proof fn lemma_kept_concat(
    a: Seq<(Seq<char>, ResourceSpec)>,
    b: Seq<(Seq<char>, ResourceSpec)>,
    alias: Map<Seq<char>, Seq<char>>,
)
    ensures
        kept_images(a + b, alias) == kept_images(a, alias) + kept_images(b, alias),
        kept_images(a, alias).len() <= a.len(),
    decreases a.len(),
{
    if a.len() == 0 {
        assert(a + b =~= b);
        assert(kept_images(a, alias) + kept_images(b, alias) =~= kept_images(b, alias));
    } else {
        lemma_kept_concat(a.skip(1), b, alias);
        assert((a + b).skip(1) =~= a.skip(1) + b);
        assert(kept_images(a + b, alias) =~= kept_images(a, alias) + kept_images(b, alias));
    }
}

/// Drops the images whose id defers to another, and counts them on.
fn retain_images(
    images: &mut Vec<(String, Resource)>,
    alias: &Vec<(String, String)>,
    removed: usize,
    Ghost(total): Ghost<nat>,
) -> (r: usize)
    requires
        removed == count::wrapped(total),
    ensures
        ({
            let before = model::resources_view(old(images)@);
            let after = model::resources_view(final(images)@);
            after == kept_images(before, alias_view(alias@)) && r == count::wrapped(
                total + (before.len() - after.len()) as nat,
            )
        }),
{
    let ghost all = model::resources_view(images@);
    let ghost map = alias_view(alias@);
    let mut count: usize = removed;
    let mut i: usize = images.len();
    proof {
        assert(all.skip(i as int) =~= Seq::<(Seq<char>, ResourceSpec)>::empty());
        assert(all =~= all.take(i as int) + kept_images(all.skip(i as int), map));
    }
    while i > 0
        invariant
            i <= all.len(),
            i <= images@.len(),
            map == alias_view(alias@),
            model::resources_view(images@) == all.take(i as int) + kept_images(
                all.skip(i as int),
                map,
            ),
            images@.len() <= all.len(),
            count == count::wrapped(total + (all.len() - images@.len()) as nat),
        decreases i,
    {
        i -= 1;
        let ghost now = model::resources_view(images@);
        proof {
            assert(now[i as int] == all[i as int]);
            assert(all.skip(i as int).skip(1) =~= all.skip(i + 1));
            assert(all.skip(i as int)[0] == all[i as int]);
        }
        if find_alias(alias, &images[i].0).is_some() {
            count = count_up(count, Ghost(total + (all.len() - images@.len()) as nat));
            images.remove(i);
            assert(model::resources_view(images@) =~= now.remove(i as int));
            assert(now.remove(i as int) =~= all.take(i as int) + kept_images(
                all.skip(i as int),
                map,
            ));
        } else {
            assert(now =~= all.take(i as int) + kept_images(all.skip(i as int), map));
        }
    }
    proof {
        assert(all.skip(0) =~= all);
        assert(all.take(0) + kept_images(all, map) =~= kept_images(all, map));
    }
    count
}

/// Points the image blocks among `elements` at the ids that theirs defer to.
fn redirect_blocks(elements: &mut Vec<Block>, alias: &Vec<(String, String)>)
    ensures
        model::blocks_view(final(elements)@) == Seq::new(
            old(elements)@.len(),
            |i: int| redirected(old(elements)@[i]@, alias_view(alias@)),
        ),
{
    let ghost before = elements@;
    let mut i: usize = 0;
    while i < elements.len()
        invariant
            i <= elements@.len(),
            before == old(elements)@,
            elements@.len() == before.len(),
            forall|j: int|
                0 <= j < i ==> (#[trigger] elements@[j])@ == redirected(
                    before[j]@,
                    alias_view(alias@),
                ),
            forall|j: int| i <= j < elements@.len() ==> #[trigger] elements@[j] == before[j],
        decreases elements@.len() - i,
    {
        let winner: Option<String> = match &elements[i] {
            Block::Image { resource_id, .. } => match find_alias(alias, resource_id) {
                Some(w) => Some(w.clone()),
                None => None,
            },
            _ => None,
        };
        match winner {
            Some(w) => match &mut elements[i] {
                Block::Image { resource_id, .. } => {
                    *resource_id = w;
                },
                _ => {},
            },
            None => {},
        }
        i += 1;
    }
    assert(model::blocks_view(elements@) =~= Seq::new(
        before.len(),
        |i: int| redirected(before[i]@, alias_view(alias@)),
    ));
}

/// The entries of `s` at the places in `places`.
pub open spec fn picked(s: Seq<(Seq<char>, ResourceSpec)>, places: Seq<usize>) -> Seq<
    (Seq<char>, ResourceSpec),
> {
    Seq::new(places.len(), |i: int| s[places[i] as int])
}

/// When each resource has its turn.
pub open spec fn turns_view(s: Seq<Option<usize>>) -> Seq<Option<nat>> {
    Seq::new(
        s.len(),
        |i: int|
            match s[i] {
                Some(n) => Some(n as nat),
                None => None,
            },
    )
}

/// Whether the resource at `i` comes before the one at `j`.
fn has_first_turn(turns: &Vec<Option<usize>>, i: usize, j: usize) -> (r: bool)
    requires
        i < turns@.len(),
        j < turns@.len(),
    ensures
        r == comes_first(turns_view(turns@), i as int, j as int),
{
    match (turns[i], turns[j]) {
        (Some(m), Some(n)) => m < n || (m == n && i < j),
        (Some(_), None) => true,
        (None, Some(_)) => false,
        (None, None) => i < j,
    }
}

/// Whether the resource at `i` comes before all others of the first `n` with its digest.
spec fn is_first_of(
    s: Seq<(Seq<char>, ResourceSpec)>,
    digests: Seq<u128>,
    turns: Seq<Option<nat>>,
    i: int,
    n: int,
) -> bool {
    &&& 0 <= i < n
    &&& s[i].1.data.len() > 0
    &&& forall|j: int|
        0 <= j < n && j != i && (#[trigger] s[j]).1.data.len() > 0 && digests[j] == digests[i]
            ==> comes_first(turns, i, j)
}

/// By digest, the place of the first resource with that digest.
fn find_firsts(
    resources: &Vec<&(String, Resource)>,
    digests: &Vec<u128>,
    turns: &Vec<Option<usize>>,
) -> (firsts: HashMap<u128, usize>)
    requires
        resources@.len() == digests@.len(),
        resources@.len() == turns@.len(),
    ensures
        ({
            let s = borrowed_view(resources@);
            &&& forall|d: u128| #[trigger]
                firsts@.contains_key(d) ==> digests@[firsts@[d] as int] == d && is_first(
                    s,
                    digests@,
                    turns_view(turns@),
                    firsts@[d] as int,
                )
            &&& forall|i: int|
                0 <= i < s.len() && (#[trigger] s[i]).1.data.len() > 0 ==> firsts@.contains_key(
                    digests@[i],
                )
        }),
{
    broadcast use vstd::std_specs::hash::group_hash_axioms;

    let ghost s = borrowed_view(resources@);
    let ghost order = turns_view(turns@);
    let mut firsts: HashMap<u128, usize> = HashMap::new();
    let mut i: usize = 0;
    while i < resources.len()
        invariant
            i <= resources@.len(),
            resources@.len() == digests@.len(),
            resources@.len() == turns@.len(),
            s == borrowed_view(resources@),
            order == turns_view(turns@),
            forall|d: u128| #[trigger]
                firsts@.contains_key(d) ==> digests@[firsts@[d] as int] == d && is_first_of(
                    s,
                    digests@,
                    order,
                    firsts@[d] as int,
                    i as int,
                ),
            forall|j: int|
                0 <= j < i && (#[trigger] s[j]).1.data.len() > 0 ==> firsts@.contains_key(
                    digests@[j],
                ),
        decreases resources@.len() - i,
    {
        let ghost before = firsts@;
        let d: u128 = digests[i];
        assert(s[i as int].1.data == resources@[i as int].1.data@);
        if resources[i].1.data.len() > 0 {
            let first = match firsts.get(&d) {
                Some(f) => has_first_turn(turns, i, *f),
                None => true,
            };
            if first {
                firsts.insert(d, i);
            }
        }
        proof {
            assert forall|x: u128| #[trigger] firsts@.contains_key(x) implies digests@[firsts@[x] as int]
                == x && is_first_of(s, digests@, order, firsts@[x] as int, i + 1) by {
                if before.contains_key(x) {
                    let f = before[x] as int;
                    assert(is_first_of(s, digests@, order, f, i as int));
                    assert(s[f].1.data.len() > 0);
                }
            }
        }
        i += 1;
    }
    proof {
        assert forall|d: u128| #[trigger] firsts@.contains_key(d) implies is_first(
            s,
            digests@,
            order,
            firsts@[d] as int,
        ) by {
            assert(is_first_of(s, digests@, order, firsts@[d] as int, i as int));
        }
    }
    firsts
}

/// No digest has two first resources.
proof fn lemma_one_first(
    s: Seq<(Seq<char>, ResourceSpec)>,
    digests: Seq<u128>,
    turns: Seq<Option<nat>>,
    i: int,
    j: int,
)
    requires
        is_first(s, digests, turns, i),
        is_first(s, digests, turns, j),
        digests[i] == digests[j],
    ensures
        i == j,
{
    assert(s[i].1.data.len() > 0 && s[j].1.data.len() > 0);
}

/// The places of the resources that are kept, in order.
pub fn keep_first(
    resources: &Vec<&(String, Resource)>,
    digests: &Vec<u128>,
    turns: &Vec<Option<usize>>,
) -> (places: Vec<usize>)
    requires
        resources@.len() == digests@.len(),
        resources@.len() == turns@.len(),
    ensures
        picked(borrowed_view(resources@), places@) == kept_resources(
            borrowed_view(resources@),
            digests@,
            turns_view(turns@),
        ),
        forall|i: int| 0 <= i < places@.len() ==> (#[trigger] places@[i]) < resources@.len(),
        forall|i: int, j: int| 0 <= i < j < places@.len() ==> places@[i] < places@[j],
{
    broadcast use vstd::std_specs::hash::group_hash_axioms;

    let ghost s = borrowed_view(resources@);
    let ghost order = turns_view(turns@);
    let firsts = find_firsts(resources, digests, turns);
    let mut places: Vec<usize> = Vec::new();
    let mut i: usize = 0;
    assert(picked(s, places@) =~= Seq::<(Seq<char>, ResourceSpec)>::empty());
    while i < resources.len()
        invariant
            i <= resources@.len(),
            resources@.len() == digests@.len(),
            resources@.len() == turns@.len(),
            s == borrowed_view(resources@),
            order == turns_view(turns@),
            forall|d: u128| #[trigger]
                firsts@.contains_key(d) ==> digests@[firsts@[d] as int] == d && is_first(
                    s,
                    digests@,
                    order,
                    firsts@[d] as int,
                ),
            forall|j: int|
                0 <= j < s.len() && (#[trigger] s[j]).1.data.len() > 0 ==> firsts@.contains_key(
                    digests@[j],
                ),
            picked(s, places@) == kept_up_to(s, digests@, order, i as int),
            forall|j: int| 0 <= j < places@.len() ==> (#[trigger] places@[j]) < i,
            forall|j: int, k: int| 0 <= j < k < places@.len() ==> places@[j] < places@[k],
        decreases resources@.len() - i,
    {
        let ghost before = places@;
        let d: u128 = digests[i];
        let data = resources[i].1.data.as_slice();
        assert(s[i as int].1.data == data@);
        let copy = if data.len() == 0 {
            false
        } else {
            match firsts.get(&d) {
                Some(f) => {
                    proof {
                        assert(is_first(s, digests@, order, *f as int));
                        assert forall|j: int| #[trigger]
                            is_first(s, digests@, order, j) && digests@[j] == d implies j
                            == *f by {
                            lemma_one_first(s, digests@, order, j, *f as int);
                        }
                    }
                    *f != i && same_bytes(resources[*f].1.data.as_slice(), data)
                },
                None => false,
            }
        };
        assert(copy == is_copy(s, digests@, order, i as int));
        if !copy {
            places.push(i);
            assert(picked(s, places@) =~= picked(s, before).push(s[i as int]));
        }
        i += 1;
    }
    places
}

/// `s` without its extension.
fn cut_extension(s: &[u8]) -> (r: &[u8])
    ensures
        r@ == stem(s@),
{
    let mut i: usize = s.len();
    assert(s@.take(i as int) =~= s@);
    while i > 0
        invariant
            i <= s@.len(),
            last_dot(s@) == last_dot(s@.take(i as int)),
        decreases i,
    {
        i -= 1;
        assert(s@.take(i + 1).drop_last() =~= s@.take(i as int));
        if s[i] == '.' as u8 {
            let r = vstd::slice::slice_subrange(s, 0, i);
            assert(r@ =~= s@.take(i as int));
            return r;
        }
    }
    s
}

/// The place of the first of `images` that belongs to the resource under `key`.
fn find_turn(images: &Vec<&(String, Resource)>, key: &String) -> (turn: Option<usize>)
    ensures
        match turn {
            Some(n) => turn_of(borrowed_view(images@), key@) == Some(n as nat),
            None => turn_of(borrowed_view(images@), key@) is None,
        },
{
    let ghost all = borrowed_view(images@);
    let mut i: usize = 0;
    assert(all.take(0) =~= Seq::<(Seq<char>, ResourceSpec)>::empty());
    while i < images.len()
        invariant
            i <= images@.len(),
            all == borrowed_view(images@),
            turn_of(all.take(i as int), key@) is None,
        decreases images@.len() - i,
    {
        assert(all.take(i + 1).drop_last() =~= all.take(i as int));
        if same_bytes(cut_extension(images[i].0.as_str().as_bytes()), key.as_str().as_bytes()) {
            proof {
                lemma_turn_prefix(all, key@, i + 1);
            }
            return Some(i);
        }
        i += 1;
    }
    assert(all.take(i as int) =~= all);
    None
}

/// A turn that comes among the first images stays.
proof fn lemma_turn_prefix(images: Seq<(Seq<char>, ResourceSpec)>, key: Seq<char>, n: int)
    requires
        0 <= n <= images.len(),
        turn_of(images.take(n), key) is Some,
    ensures
        turn_of(images, key) == turn_of(images.take(n), key),
    decreases images.len(),
{
    if n < images.len() {
        assert(images.drop_last().take(n) =~= images.take(n));
        lemma_turn_prefix(images.drop_last(), key, n);
    } else {
        assert(images.take(n) =~= images);
    }
}

/// The places of the resources that are kept, where pages show `images`.
fn places_to_keep(resources: &Resources, images: &Vec<&(String, Resource)>) -> (places: Vec<usize>)
    ensures
        picked(resources@, places@) == kept_resources(
            resources@,
            digests_of(resources@),
            turns_of(resources@, borrowed_view(images@)),
        ),
        forall|i: int| 0 <= i < places@.len() ==> (#[trigger] places@[i]) < resources@.len(),
        forall|i: int, j: int| 0 <= i < j < places@.len() ==> places@[i] < places@[j],
{
    let mut list: Vec<&(String, Resource)> = Vec::new();
    let mut turns: Vec<Option<usize>> = Vec::new();
    let mut i: usize = 0;
    while i < resources.len()
        invariant
            i <= resources@.len(),
            borrowed_view(list@) =~= resources@.take(i as int),
            turns_view(turns@) =~= turns_of(resources@, borrowed_view(images@)).take(i as int),
        decreases resources@.len() - i,
    {
        let ghost before = borrowed_view(list@);
        let ghost order = turns_view(turns@);
        let entry = resources.entry(i);
        let turn = find_turn(images, &entry.0);
        list.push(entry);
        turns.push(turn);
        proof {
            assert(borrowed_view(list@) =~= before.push(resources@[i as int]));
            assert(turns_view(turns@) =~= order.push(
                turns_of(resources@, borrowed_view(images@))[i as int],
            ));
        }
        i += 1;
    }
    proof {
        assert(resources@.take(i as int) =~= resources@);
        assert(turns_view(turns@) =~= turns_of(resources@, borrowed_view(images@)));
    }
    let digests = collect_digests(&list);
    keep_first(&list, &digests, &turns)
}

/// Rewrite every reference to a duplicated resource so it points at the first occurrence, and
/// drop the copies. Returns how many entries were removed, for the extraction diagnostics.
pub fn collapse_identical_resources(document: &mut Document) -> (removed: usize)
    ensures
        final(document)@ == collapsed(old(document)@),
        removed == count::wrapped(
            lost_images(old(document)@.pages, aliases(old(document)@.pages)),
        ),
        model::in_key_order(old(document)@.resources),
        model::in_key_order(final(document)@.resources),
{
    proof {
        use_type_invariant(&document.resources);
    }
    let ghost before = document@;
    let alias = {
        let images = collect_images(&document.pages);
        let digests = collect_digests(&images);
        elect(&images, &digests)
    };
    let ghost map = alias_view(alias@);
    if alias.len() == 0 {
        proof {
            lemma_nothing_lost(before.pages, map);
            count::lemma_wrapped_small(0);
        }
        return 0;
    }
    // Before copies are dropped from the pages: the images say in which order resources come.
    let places = {
        let images = collect_images(&document.pages);
        places_to_keep(&document.resources, &images)
    };
    let mut removed: usize = 0;
    let mut i: usize = 0;
    proof {
        count::lemma_wrapped_small(0);
        assert(before.pages.take(0) =~= Seq::<PageSpec>::empty());
    }
    while i < document.pages.len()
        invariant
            i <= document.pages@.len(),
            before == old(document)@,
            document.resources == old(document).resources,
            document.extraction_quality == old(document).extraction_quality,
            map == alias_view(alias@),
            document.pages@.len() == before.pages.len(),
            forall|j: int|
                0 <= j < i ==> (#[trigger] document.pages@[j])@ == collapsed_page(
                    before.pages[j],
                    map,
                ),
            forall|j: int|
                i <= j < document.pages@.len() ==> (#[trigger] document.pages@[j])@
                    == before.pages[j],
            removed == count::wrapped(lost_images(before.pages.take(i as int), map)),
        decreases document.pages@.len() - i,
    {
        let ghost total = lost_images(before.pages.take(i as int), map);
        proof {
            assert(before.pages.take(i + 1).drop_last() =~= before.pages.take(i as int));
            lemma_kept_concat(before.pages[i as int].images, Seq::empty(), map);
        }
        removed = collapse_page(&mut document.pages[i], &alias, removed, Ghost(total));
        i += 1;
    }
    document.resources.pick(&places);
    proof {
        use_type_invariant(&document.resources);
        assert(before.pages.take(i as int) =~= before.pages);
        assert(document@.pages =~= collapsed(before).pages);
        assert(document@.resources =~= collapsed(before).resources);
    }
    removed
}

/// Rewrites the references of one page and drops its copies, counting them on.
fn collapse_page(
    page: &mut Page,
    alias: &Vec<(String, String)>,
    removed: usize,
    Ghost(total): Ghost<nat>,
) -> (r: usize)
    requires
        removed == count::wrapped(total),
    ensures
        final(page)@ == collapsed_page(old(page)@, alias_view(alias@)),
        r == count::wrapped(
            total + (old(page)@.images.len() - final(page)@.images.len()) as nat,
        ),
{
    redirect_blocks(&mut page.elements, alias);
    let r = retain_images(&mut page.images, alias, removed, Ghost(total));
    assert(page@.elements =~= collapsed_page(old(page)@, alias_view(alias@)).elements);
    r
}

/// Without aliases nothing is lost.
proof fn lemma_nothing_lost(pages: Seq<PageSpec>, alias: Map<Seq<char>, Seq<char>>)
    requires
        alias.dom() == Set::<Seq<char>>::empty(),
    ensures
        lost_images(pages, alias) == 0,
    decreases pages.len(),
{
    if pages.len() > 0 {
        lemma_nothing_lost(pages.drop_last(), alias);
        lemma_all_kept(pages.last().images, alias);
    }
}

/// Without aliases all images are kept.
pub proof fn lemma_all_kept(
    s: Seq<(Seq<char>, ResourceSpec)>,
    alias: Map<Seq<char>, Seq<char>>,
)
    requires
        forall|i: int| 0 <= i < s.len() ==> !alias.contains_key((#[trigger] s[i]).0),
    ensures
        kept_images(s, alias) == s,
    decreases s.len(),
{
    if s.len() > 0 {
        assert forall|i: int| 0 <= i < s.skip(1).len() implies !alias.contains_key(
            (#[trigger] s.skip(1)[i]).0,
        ) by {
            assert(s.skip(1)[i] == s[i + 1]);
        }
        lemma_all_kept(s.skip(1), alias);
        assert(seq![s[0]] + s.skip(1) =~= s);
    }
}

} // verus!
