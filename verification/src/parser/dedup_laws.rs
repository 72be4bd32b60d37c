//! What holds of every document whose duplicates were collapsed.

use vstd::prelude::*;

use super::dedup;
use super::raw::cipher;
use super::raw::numbers;
use crate::model;
use crate::model::{BlockSpec, DocumentSpec, PageSpec, ResourceSpec};

verus! {

/// Whether every id stands for the same bytes wherever it occurs.
pub open spec fn consistent(images: Seq<(Seq<char>, ResourceSpec)>) -> bool {
    forall|i: int, j: int|
        0 <= i < images.len() && 0 <= j < images.len() && (#[trigger] images[i]).0 == (
        #[trigger] images[j]).0 ==> images[i].1.data == images[j].1.data
}

/// Whether no two different byte strings among `images` have one digest.
pub open spec fn collision_free(
    images: Seq<(Seq<char>, ResourceSpec)>,
    digests: Seq<u128>,
) -> bool {
    forall|i: int, j: int|
        0 <= i < images.len() && 0 <= j < images.len() && #[trigger] digests[i]
            == #[trigger] digests[j] ==> images[i].1.data == images[j].1.data
}

/// Whether `digests` are digests of `images`: equal bytes have equal digests.
pub open spec fn are_digests(images: Seq<(Seq<char>, ResourceSpec)>, digests: Seq<u128>) -> bool {
    digests.len() == images.len() && forall|i: int, j: int|
        0 <= i < images.len() && 0 <= j < images.len() && (#[trigger] images[i]).1.data == (
        #[trigger] images[j]).1.data ==> digests[i] == digests[j]
}

/// Whether an image `id` with the bytes `data` is at place `i`.
pub open spec fn image_at(
    images: Seq<(Seq<char>, ResourceSpec)>,
    i: int,
    id: Seq<char>,
    data: Seq<u8>,
) -> bool {
    0 <= i < images.len() && images[i].0 == id && images[i].1.data == data
}

/// Whether an image `id` with the bytes `data` is among `images`.
pub open spec fn shows(
    images: Seq<(Seq<char>, ResourceSpec)>,
    id: Seq<char>,
    data: Seq<u8>,
) -> bool {
    exists|i: int| #[trigger] image_at(images, i, id, data)
}

/// Whether the images at `i` and, after it, `j` make `id` defer to `winner`.
pub open spec fn duplicate_at(
    images: Seq<(Seq<char>, ResourceSpec)>,
    i: int,
    j: int,
    winner: Seq<char>,
    id: Seq<char>,
) -> bool {
    &&& 0 <= i < j < images.len()
    &&& images[i].0 == winner
    &&& images[j].0 == id
    &&& images[i].1.data == images[j].1.data
    &&& images[j].1.data.len() > 0
}

/// What an election among `images` is made of: winners are images, in order of occurrence, and
/// duplicates have the bytes of the image that they defer to, which comes before them.
proof fn lemma_elected(images: Seq<(Seq<char>, ResourceSpec)>, digests: Seq<u128>)
    requires
        digests.len() == images.len(),
    ensures
        ({
            let e = dedup::elected(images, digests);
            &&& forall|d: u128| #[trigger]
                e.winners.contains_key(d) ==> e.winners[d].1.len() > 0 && exists|i: int|
                    #[trigger]
                    image_at(images, i, e.winners[d].0, e.winners[d].1) && digests[i] == d
            &&& forall|id: Seq<char>| #[trigger]
                e.alias.contains_key(id) ==> e.alias[id] != id && exists|i: int, j: int|
                    #[trigger]
                    duplicate_at(images, i, j, e.alias[id], id) && e.winners.contains_key(
                        digests[j],
                    ) && e.winners[digests[j]] == (e.alias[id], images[j].1.data)
        }),
    decreases images.len(),
{
    if images.len() > 0 {
        let rest = images.drop_last();
        let n = images.len() - 1;
        lemma_elected(rest, digests.drop_last());
        let before = dedup::elected(rest, digests.drop_last());
        let e = dedup::elected(images, digests);
        let (id, r) = images.last();
        let d = digests.last();
        assert forall|x: u128| #[trigger] e.winners.contains_key(x) implies e.winners[x].1.len() > 0
            && exists|i: int| #[trigger]
            image_at(images, i, e.winners[x].0, e.winners[x].1) && digests[i] == x by {
            if before.winners.contains_key(x) {
                let i = choose|i: int| #[trigger]
                    image_at(rest, i, before.winners[x].0, before.winners[x].1)
                        && digests.drop_last()[i] == x;
                assert(image_at(images, i, e.winners[x].0, e.winners[x].1) && digests[i] == x);
            } else {
                assert(image_at(images, n, e.winners[x].0, e.winners[x].1) && digests[n] == x);
            }
        }
        assert forall|x: Seq<char>| #[trigger] e.alias.contains_key(x) implies e.alias[x] != x
            && exists|i: int, j: int| #[trigger]
            duplicate_at(images, i, j, e.alias[x], x) && e.winners.contains_key(digests[j])
                && e.winners[digests[j]] == (e.alias[x], images[j].1.data) by {
            if before.alias.contains_key(x) {
                let (i, j) = choose|i: int, j: int| #[trigger]
                    duplicate_at(rest, i, j, before.alias[x], x) && before.winners.contains_key(
                        digests.drop_last()[j],
                    ) && before.winners[digests.drop_last()[j]] == (
                        before.alias[x],
                        rest[j].1.data,
                    );
                assert(duplicate_at(images, i, j, e.alias[x], x));
            } else {
                let i = choose|i: int| #[trigger]
                    image_at(rest, i, before.winners[d].0, before.winners[d].1)
                        && digests.drop_last()[i] == d;
                assert(duplicate_at(images, i, n, e.alias[x], x));
            }
        }
    }
}

/// A duplicate has the bytes of the image that it defers to, and that image comes first.
pub proof fn a_duplicate_defers_to_an_earlier_copy(
    images: Seq<(Seq<char>, ResourceSpec)>,
    digests: Seq<u128>,
    id: Seq<char>,
)
    requires
        digests.len() == images.len(),
        dedup::elected(images, digests).alias.contains_key(id),
    ensures
        dedup::elected(images, digests).alias[id] != id,
        exists|i: int, j: int| #[trigger]
            duplicate_at(images, i, j, dedup::elected(images, digests).alias[id], id),
{
    lemma_elected(images, digests);
}

/// While ids stand for the same bytes, no winner is a duplicate.
proof fn lemma_winners_stay(images: Seq<(Seq<char>, ResourceSpec)>, digests: Seq<u128>)
    requires
        are_digests(images, digests),
        consistent(images),
    ensures
        ({
            let e = dedup::elected(images, digests);
            forall|d: u128| #[trigger]
                e.winners.contains_key(d) ==> !e.alias.contains_key(e.winners[d].0)
        }),
    decreases images.len(),
{
    if images.len() > 0 {
        let rest = images.drop_last();
        let n = images.len() - 1;
        assert forall|i: int, j: int|
            0 <= i < rest.len() && 0 <= j < rest.len() && (#[trigger] rest[i]).0 == (
            #[trigger] rest[j]).0 implies rest[i].1.data == rest[j].1.data by {
            assert(images[i].0 == images[j].0);
        }
        assert forall|i: int, j: int|
            0 <= i < rest.len() && 0 <= j < rest.len() && (#[trigger] rest[i]).1.data == (
            #[trigger] rest[j]).1.data implies digests.drop_last()[i]
            == digests.drop_last()[j] by {
            assert(images[i].1.data == images[j].1.data);
        }
        lemma_winners_stay(rest, digests.drop_last());
        lemma_elected(rest, digests.drop_last());
        let before = dedup::elected(rest, digests.drop_last());
        let e = dedup::elected(images, digests);
        assert forall|x: u128| #[trigger] e.winners.contains_key(
            x,
        ) implies !e.alias.contains_key(e.winners[x].0) by {
            if before.winners.contains_key(x) && e.alias != before.alias {
                if e.winners[x].0 == images.last().0 {
                    let i = choose|i: int| #[trigger]
                        image_at(rest, i, before.winners[x].0, before.winners[x].1)
                            && digests.drop_last()[i] == x;
                    assert(images[i].0 == images[n].0);
                    assert(images[i].1.data == images[n].1.data);
                    assert(digests[i] == digests[n]);
                    assert(false);
                }
            }
        }
    }
}

/// While ids stand for the same bytes, the image that a duplicate defers to is not a duplicate
/// itself.
pub proof fn a_winner_is_not_a_duplicate(
    images: Seq<(Seq<char>, ResourceSpec)>,
    digests: Seq<u128>,
    id: Seq<char>,
)
    requires
        are_digests(images, digests),
        consistent(images),
        dedup::elected(images, digests).alias.contains_key(id),
    ensures
        !dedup::elected(images, digests).alias.contains_key(
            dedup::elected(images, digests).alias[id],
        ),
{
    lemma_elected(images, digests);
    lemma_winners_stay(images, digests);
}

/// An image that is no duplicate either has no bytes, or is the winner among those with its
/// digest, or shares its digest with different bytes.
proof fn lemma_considered_all(
    images: Seq<(Seq<char>, ResourceSpec)>,
    digests: Seq<u128>,
    i: int,
)
    requires
        digests.len() == images.len(),
        0 <= i < images.len(),
        images[i].1.data.len() > 0,
    ensures
        ({
            let e = dedup::elected(images, digests);
            ||| e.alias.contains_key(images[i].0)
            ||| e.winners.contains_key(digests[i]) && (e.winners[digests[i]] == (
                images[i].0,
                images[i].1.data,
            ) || e.winners[digests[i]].1 != images[i].1.data)
        }),
    decreases images.len(),
{
    if i < images.len() - 1 {
        lemma_considered_all(images.drop_last(), digests.drop_last(), i);
    }
}

proof fn lemma_digests(images: Seq<(Seq<char>, ResourceSpec)>)
    ensures
        are_digests(images, dedup::digests_of(images)),
{
}

/// What is kept of an image list is from the list, and no duplicate.
proof fn lemma_kept(
    s: Seq<(Seq<char>, ResourceSpec)>,
    alias: Map<Seq<char>, Seq<char>>,
)
    ensures
        forall|k: int|
            0 <= k < dedup::kept_images(s, alias).len() ==> !alias.contains_key(
                (#[trigger] dedup::kept_images(s, alias)[k]).0,
            ) && s.contains(dedup::kept_images(s, alias)[k]),
        forall|i: int|
            0 <= i < s.len() && !alias.contains_key((#[trigger] s[i]).0) ==> dedup::kept_images(
                s,
                alias,
            ).contains(s[i]),
    decreases s.len(),
{
    let kept = dedup::kept_images(s, alias);
    if s.len() > 0 {
        let rest = s.skip(1);
        lemma_kept(rest, alias);
        let r = dedup::kept_images(rest, alias);
        assert forall|k: int| 0 <= k < kept.len() implies !alias.contains_key(
            (#[trigger] kept[k]).0,
        ) && s.contains(kept[k]) by {
            if alias.contains_key(s[0].0) {
                assert(kept[k] == r[k]);
                let i = rest.index_of(r[k]);
                assert(s[i + 1] == kept[k]);
            } else if k == 0 {
                assert(kept[k] == s[0]);
            } else {
                assert(kept[k] == r[k - 1]);
                let i = rest.index_of(r[k - 1]);
                assert(s[i + 1] == kept[k]);
            }
        }
        assert forall|i: int|
            0 <= i < s.len() && !alias.contains_key((#[trigger] s[i]).0) implies kept.contains(
            s[i],
        ) by {
            if i == 0 {
                assert(kept[0] == s[0]);
            } else {
                assert(rest[i - 1] == s[i]);
                let k = r.index_of(s[i]);
                if alias.contains_key(s[0].0) {
                    assert(kept[k] == s[i]);
                } else {
                    assert(kept[k + 1] == s[i]);
                }
            }
        }
    }
}

/// The images of collapsed pages are the images that are kept of all images.
proof fn lemma_collapsed_images(pages: Seq<PageSpec>, alias: Map<Seq<char>, Seq<char>>)
    ensures
        dedup::all_images(
            Seq::new(pages.len(), |i: int| dedup::collapsed_page(pages[i], alias)),
        ) == dedup::kept_images(dedup::all_images(pages), alias),
        dedup::all_images(pages).len() == dedup::kept_images(
            dedup::all_images(pages),
            alias,
        ).len() + dedup::lost_images(pages, alias),
    decreases pages.len(),
{
    let after = Seq::new(pages.len(), |i: int| dedup::collapsed_page(pages[i], alias));
    if pages.len() > 0 {
        let rest = pages.drop_last();
        lemma_collapsed_images(rest, alias);
        let rest_after = Seq::new(rest.len(), |i: int| dedup::collapsed_page(rest[i], alias));
        assert(after.drop_last() =~= rest_after);
        dedup::lemma_kept_concat(dedup::all_images(rest), pages.last().images, alias);
        dedup::lemma_kept_concat(pages.last().images, Seq::empty(), alias);
    }
}

/// The images of a collapsed document are those that are kept of all images.
proof fn lemma_collapsed(doc: DocumentSpec)
    ensures
        dedup::all_images(dedup::collapsed(doc).pages) == dedup::kept_images(
            dedup::all_images(doc.pages),
            dedup::aliases(doc.pages),
        ),
        dedup::all_images(doc.pages).len() == dedup::all_images(dedup::collapsed(doc).pages).len()
            + dedup::lost_images(doc.pages, dedup::aliases(doc.pages)),
{
    let alias = dedup::aliases(doc.pages);
    lemma_collapsed_images(doc.pages, alias);
    if alias.dom() == Set::<Seq<char>>::empty() {
        dedup::lemma_all_kept(dedup::all_images(doc.pages), alias);
    }
}

/// The images that are left and the images that were removed are all the images.
pub proof fn removed_images_are_counted(doc: DocumentSpec)
    ensures
        dedup::all_images(doc.pages).len() == dedup::all_images(dedup::collapsed(doc).pages).len()
            + dedup::lost_images(doc.pages, dedup::aliases(doc.pages)),
{
    lemma_collapsed(doc);
}

/// No image block loses its picture: whatever bytes its id stood for before, the id that it is
/// given stands for afterwards.
pub proof fn references_keep_their_bytes(
    doc: DocumentSpec,
    page: int,
    place: int,
    id: Seq<char>,
    alt: Option<Seq<char>>,
    data: Seq<u8>,
)
    requires
        consistent(dedup::all_images(doc.pages)),
        0 <= page < doc.pages.len(),
        0 <= place < doc.pages[page].elements.len(),
        doc.pages[page].elements[place] == BlockSpec::Image(id, alt),
        shows(dedup::all_images(doc.pages), id, data),
    ensures
        dedup::collapsed(doc).pages[page].elements[place] matches BlockSpec::Image(new_id, new_alt)
            && new_alt == alt && shows(
            dedup::all_images(dedup::collapsed(doc).pages),
            new_id,
            data,
        ),
{
    let images = dedup::all_images(doc.pages);
    let digests = dedup::digests_of(images);
    let alias = dedup::aliases(doc.pages);
    let after = dedup::all_images(dedup::collapsed(doc).pages);
    lemma_collapsed(doc);
    lemma_kept(images, alias);
    let at = choose|i: int| #[trigger] image_at(images, i, id, data);
    if alias.dom() == Set::<Seq<char>>::empty() {
        assert(!alias.contains_key(id));
    }
    if alias.contains_key(id) {
        lemma_digests(images);
        lemma_elected(images, digests);
        a_winner_is_not_a_duplicate(images, digests, id);
        let (i, j) = choose|i: int, j: int| #[trigger] duplicate_at(images, i, j, alias[id], id);
        assert(images[j].0 == images[at].0);
        assert(after.contains(images[i]));
        let k = after.index_of(images[i]);
        assert(image_at(after, k, alias[id], data));
    } else {
        assert(after.contains(images[at]));
        let k = after.index_of(images[at]);
        assert(image_at(after, k, id, data));
    }
}

/// No two images that are left under different ids have the same bytes, but for those without
/// bytes.
pub proof fn images_that_are_left_differ(doc: DocumentSpec, i: int, j: int)
    requires
        consistent(dedup::all_images(doc.pages)),
        collision_free(
            dedup::all_images(doc.pages),
            dedup::digests_of(dedup::all_images(doc.pages)),
        ),
        0 <= i < dedup::all_images(dedup::collapsed(doc).pages).len(),
        0 <= j < dedup::all_images(dedup::collapsed(doc).pages).len(),
        dedup::all_images(dedup::collapsed(doc).pages)[i].1.data == dedup::all_images(
            dedup::collapsed(doc).pages,
        )[j].1.data,
        dedup::all_images(dedup::collapsed(doc).pages)[i].1.data.len() > 0,
    ensures
        dedup::all_images(dedup::collapsed(doc).pages)[i].0 == dedup::all_images(
            dedup::collapsed(doc).pages,
        )[j].0,
{
    let images = dedup::all_images(doc.pages);
    let digests = dedup::digests_of(images);
    let alias = dedup::aliases(doc.pages);
    let after = dedup::all_images(dedup::collapsed(doc).pages);
    lemma_collapsed(doc);
    lemma_kept(images, alias);
    lemma_elected(images, digests);
    let a = images.index_of(after[i]);
    let b = images.index_of(after[j]);
    assert(images.contains(after[i]) && images.contains(after[j]));
    assert(images[a] == after[i] && images[b] == after[j]);
    lemma_considered_all(images, digests, a);
    lemma_considered_all(images, digests, b);
    let e = dedup::elected(images, digests);
    assert(digests[a] == digests[b]);
    let w = choose|k: int| #[trigger]
        image_at(images, k, e.winners[digests[a]].0, e.winners[digests[a]].1) && digests[k]
            == digests[a];
    assert(digests[w] == digests[a]);
}

/// What defers to another among the first images defers to it among all.
proof fn lemma_alias_grows(images: Seq<(Seq<char>, ResourceSpec)>, digests: Seq<u128>, n: int)
    requires
        digests.len() == images.len(),
        0 <= n <= images.len(),
    ensures
        ({
            let part = dedup::elected(images.take(n), digests.take(n));
            let e = dedup::elected(images, digests);
            &&& forall|id: Seq<char>| #[trigger]
                part.alias.contains_key(id) ==> e.alias.contains_key(id)
            &&& forall|d: u128| #[trigger]
                part.winners.contains_key(d) ==> e.winners.contains_key(d) && e.winners[d]
                    == part.winners[d]
        }),
    decreases images.len(),
{
    if n < images.len() {
        lemma_alias_grows(images.drop_last(), digests.drop_last(), n);
        assert(images.drop_last().take(n) =~= images.take(n));
        assert(digests.drop_last().take(n) =~= digests.take(n));
    } else {
        assert(images.take(n) =~= images);
        assert(digests.take(n) =~= digests);
    }
}

/// An election among the images that are kept has the winners of the election among all of
/// them, and no id defers to another.
proof fn lemma_second_election(images: Seq<(Seq<char>, ResourceSpec)>, n: int)
    requires
        consistent(images),
        0 <= n <= images.len(),
    ensures
        ({
            let digests = dedup::digests_of(images);
            let alias = dedup::elected(images, digests).alias;
            let kept = dedup::kept_images(images.take(n), alias);
            let e = dedup::elected(kept, dedup::digests_of(kept));
            &&& e.winners == dedup::elected(images.take(n), digests.take(n)).winners
            &&& e.alias == Map::<Seq<char>, Seq<char>>::empty()
        }),
    decreases n,
{
    let digests = dedup::digests_of(images);
    let alias = dedup::elected(images, digests).alias;
    let part = images.take(n);
    let kept = dedup::kept_images(part, alias);
    if n > 0 {
        let rest = images.take(n - 1);
        let last = images[n - 1];
        let before = dedup::kept_images(rest, alias);
        lemma_second_election(images, n - 1);
        lemma_alias_grows(images, digests, n - 1);
        lemma_alias_grows(images, digests, n);
        lemma_digests(images);
        lemma_winners_stay(images, digests);
        assert(part.drop_last() =~= rest);
        assert(digests.take(n).drop_last() =~= digests.take(n - 1));
        assert(part =~= rest + seq![last]);
        dedup::lemma_kept_concat(rest, seq![last], alias);
        assert(dedup::kept_images(seq![last], alias) =~= (if alias.contains_key(last.0) {
            Seq::empty()
        } else {
            seq![last]
        })) by {
            assert(seq![last].skip(1) =~= Seq::<(Seq<char>, ResourceSpec)>::empty());
            reveal_with_fuel(dedup::kept_images, 2);
        }
        let first = dedup::elected(rest, digests.take(n - 1));
        let now = dedup::elected(part, digests.take(n));
        let d = digests[n - 1];
        assert(now == dedup::considered(first, last.0, last.1.data, d));
        if alias.contains_key(last.0) {
            assert(kept =~= before);
            // A winner is no duplicate, so this image was not the first with its digest.
            assert(now.winners.contains_key(d) ==> now.winners[d].0 != last.0);
            assert(now.winners == first.winners);
        } else {
            assert(kept =~= before.push(last));
            assert(kept.drop_last() =~= before);
            assert(dedup::digests_of(kept).drop_last() =~= dedup::digests_of(before));
            assert(dedup::digests_of(kept).last() == d);
            let second = dedup::elected(before, dedup::digests_of(before));
            assert(dedup::elected(kept, dedup::digests_of(kept)) == dedup::considered(
                second,
                last.0,
                last.1.data,
                d,
            ));
            assert(!first.alias.contains_key(last.0));
            assert(!now.alias.contains_key(last.0));
        }
    } else {
        assert(kept.len() == 0);
    }
}

/// Collapsing a collapsed document changes nothing.
pub proof fn collapsing_twice_changes_nothing(doc: DocumentSpec)
    requires
        consistent(dedup::all_images(doc.pages)),
    ensures
        dedup::collapsed(dedup::collapsed(doc)) == dedup::collapsed(doc),
{
    let images = dedup::all_images(doc.pages);
    lemma_collapsed(doc);
    lemma_second_election(images, images.len() as int);
    assert(images.take(images.len() as int) =~= images);
    assert(dedup::aliases(dedup::collapsed(doc).pages).dom() =~= Set::<Seq<char>>::empty());
}

/// What is kept of resources is what is no copy.
proof fn lemma_kept_up_to(
    s: Seq<(Seq<char>, ResourceSpec)>,
    digests: Seq<u128>,
    turns: Seq<Option<nat>>,
    n: int,
)
    requires
        0 <= n <= s.len(),
    ensures
        forall|i: int|
            0 <= i < n && !(#[trigger] dedup::is_copy(s, digests, turns, i)) ==> dedup::kept_up_to(
                s,
                digests,
                turns,
                n,
            ).contains(s[i]),
    decreases n,
{
    let kept = dedup::kept_up_to(s, digests, turns, n);
    if n > 0 {
        lemma_kept_up_to(s, digests, turns, n - 1);
        let before = dedup::kept_up_to(s, digests, turns, n - 1);
        assert forall|i: int|
            0 <= i < n && !(#[trigger] dedup::is_copy(s, digests, turns, i)) implies kept.contains(
            s[i],
        ) by {
            if i == n - 1 {
                assert(kept[kept.len() - 1] == s[i]);
            } else {
                let k = before.index_of(s[i]);
                assert(kept[k] == s[i]);
            }
        }
    }
}

/// Where the resource at `k` among those that are kept was.
proof fn lemma_kept_place(
    s: Seq<(Seq<char>, ResourceSpec)>,
    digests: Seq<u128>,
    turns: Seq<Option<nat>>,
    n: int,
    k: int,
) -> (i: int)
    requires
        0 <= n <= s.len(),
        0 <= k < dedup::kept_up_to(s, digests, turns, n).len(),
    ensures
        k <= i < n,
        !dedup::is_copy(s, digests, turns, i),
        s[i] == dedup::kept_up_to(s, digests, turns, n)[k],
        forall|l: int|
            k < l < dedup::kept_up_to(s, digests, turns, n).len() ==> exists|j: int|
                i < j < n && !(#[trigger] dedup::is_copy(s, digests, turns, j)) && s[j]
                    == #[trigger] dedup::kept_up_to(s, digests, turns, n)[l],
    decreases n,
{
    let kept = dedup::kept_up_to(s, digests, turns, n);
    let before = dedup::kept_up_to(s, digests, turns, n - 1);
    if k < before.len() {
        let i = lemma_kept_place(s, digests, turns, n - 1, k);
        assert forall|l: int| k < l < kept.len() implies exists|j: int|
            i < j < n && !(#[trigger] dedup::is_copy(s, digests, turns, j)) && s[j]
                == #[trigger] kept[l] by {
            if l < before.len() {
                assert(kept[l] == before[l]);
                let j = choose|j: int|
                    i < j < n - 1 && !(#[trigger] dedup::is_copy(s, digests, turns, j)) && s[j]
                        == before[l];
                assert(!dedup::is_copy(s, digests, turns, j) && s[j] == kept[l]);
            } else {
                assert(!dedup::is_copy(s, digests, turns, n - 1) && s[n - 1] == kept[l]);
            }
        }
        i
    } else {
        lemma_kept_len(s, digests, turns, n - 1);
        n - 1
    }
}

/// No more is kept than there is.
proof fn lemma_kept_len(
    s: Seq<(Seq<char>, ResourceSpec)>,
    digests: Seq<u128>,
    turns: Seq<Option<nat>>,
    n: int,
)
    requires
        0 <= n,
    ensures
        dedup::kept_up_to(s, digests, turns, n).len() <= n,
    decreases n,
{
    if n > 0 {
        lemma_kept_len(s, digests, turns, n - 1);
    }
}

/// Of the resources with the digest of the one at `i`, one comes first.
proof fn lemma_first_exists(
    s: Seq<(Seq<char>, ResourceSpec)>,
    digests: Seq<u128>,
    turns: Seq<Option<nat>>,
    i: int,
) -> (f: int)
    requires
        digests.len() == s.len(),
        turns.len() == s.len(),
        0 <= i < s.len(),
        s[i].1.data.len() > 0,
    ensures
        dedup::is_first(s, digests, turns, f),
        digests[f] == digests[i],
    decreases s.len(),
{
    let n = s.len() - 1;
    let rest = s.drop_last();
    let d = digests[i];
    if exists|j: int|
        0 <= j < n && (#[trigger] rest[j]).1.data.len() > 0 && digests[j] == d {
        let j = choose|j: int|
            0 <= j < n && (#[trigger] rest[j]).1.data.len() > 0 && digests[j] == d;
        let f = lemma_first_exists(rest, digests.drop_last(), turns.drop_last(), j);
        assert(rest[f].1.data.len() > 0);
        if s[n].1.data.len() > 0 && digests[n] == d && dedup::comes_first(turns, n, f) {
            assert forall|k: int|
                0 <= k < s.len() && k != n && (#[trigger] s[k]).1.data.len() > 0 && digests[k]
                    == digests[n] implies dedup::comes_first(turns, n, k) by {
                assert(rest[k] == s[k]);
                assert(k != f ==> dedup::comes_first(turns.drop_last(), f, k));
            }
            n
        } else {
            assert forall|k: int|
                0 <= k < s.len() && k != f && (#[trigger] s[k]).1.data.len() > 0 && digests[k]
                    == digests[f] implies dedup::comes_first(turns, f, k) by {
                if k < n {
                    assert(rest[k] == s[k]);
                    assert(dedup::comes_first(turns.drop_last(), f, k));
                }
            }
            f
        }
    } else {
        assert forall|k: int|
            0 <= k < s.len() && k != i && (#[trigger] s[k]).1.data.len() > 0 && digests[k]
                == digests[i] implies dedup::comes_first(turns, i, k) by {
            if k < n {
                assert(rest[k] == s[k]);
            }
            if i < n {
                assert(rest[i] == s[i]);
            }
        }
        i
    }
}

/// When the resources of `doc` have their turn in reading order.
pub open spec fn reading(doc: DocumentSpec) -> Seq<Option<nat>> {
    dedup::turns_of(doc.resources, dedup::all_images(doc.pages))
}

/// Of the resources with the same bytes, the one that comes first in reading order stays.
pub proof fn the_first_of_equal_resources_stays(doc: DocumentSpec, i: int)
    requires
        0 <= i < doc.resources.len(),
        forall|j: int|
            0 <= j < doc.resources.len() && j != i && (#[trigger] doc.resources[j]).1.data
                == doc.resources[i].1.data ==> dedup::comes_first(reading(doc), i, j),
    ensures
        dedup::collapsed(doc).resources.contains(doc.resources[i]),
{
    let s = doc.resources;
    let digests = dedup::digests_of(s);
    if dedup::is_copy(s, digests, reading(doc), i) {
        let j = choose|j: int| #[trigger]
            dedup::is_first(s, digests, reading(doc), j) && j != i && digests[j] == digests[i]
                && s[j].1.data == s[i].1.data;
        assert(dedup::comes_first(reading(doc), j, i));
        assert(dedup::comes_first(reading(doc), i, j));
    }
    lemma_kept_up_to(s, digests, reading(doc), s.len() as int);
    assert(s.contains(s[i]));
}

/// A resource is dropped only where one with its bytes stays that comes before it in reading
/// order.
pub proof fn a_dropped_resource_has_an_earlier_copy(doc: DocumentSpec, i: int)
    requires
        0 <= i < doc.resources.len(),
        !dedup::collapsed(doc).resources.contains(doc.resources[i]),
    ensures
        exists|j: int|
            0 <= j < doc.resources.len() && (#[trigger] doc.resources[j]).1.data
                == doc.resources[i].1.data && dedup::comes_first(reading(doc), j, i)
                && dedup::collapsed(doc).resources.contains(doc.resources[j]),
{
    let s = doc.resources;
    let digests = dedup::digests_of(s);
    let turns = reading(doc);
    assert(s.contains(s[i]));
    lemma_kept_up_to(s, digests, turns, s.len() as int);
    assert(dedup::is_copy(s, digests, turns, i));
    let j = choose|j: int| #[trigger]
        dedup::is_first(s, digests, turns, j) && j != i && digests[j] == digests[i] && s[j].1.data
            == s[i].1.data;
    assert(dedup::comes_first(turns, j, i));
    if dedup::is_copy(s, digests, turns, j) {
        let k = choose|k: int| #[trigger]
            dedup::is_first(s, digests, turns, k) && k != j && digests[k] == digests[j]
                && s[k].1.data == s[j].1.data;
        assert(dedup::comes_first(turns, k, j));
        assert(dedup::comes_first(turns, j, k));
    }
}

/// What the turn of a resource says of the images.
proof fn lemma_turn(images: Seq<(Seq<char>, ResourceSpec)>, key: Seq<char>)
    ensures
        match dedup::turn_of(images, key) {
            Some(p) => p < images.len() && dedup::belongs_to(images[p as int].0, key) && forall|q: int|
                0 <= q < p ==> !dedup::belongs_to((#[trigger] images[q]).0, key),
            None => forall|q: int|
                0 <= q < images.len() ==> !dedup::belongs_to((#[trigger] images[q]).0, key),
        },
    decreases images.len(),
{
    if images.len() > 0 {
        let rest = images.drop_last();
        lemma_turn(rest, key);
        assert forall|q: int| 0 <= q < rest.len() implies #[trigger] images[q] == rest[q] by {}
    }
}

/// The resource that stays is that of the image that stays: where resources have the bytes of
/// the images that belong to them, the resource of the first image with some bytes stays.
pub proof fn the_resource_of_the_first_image_stays(doc: DocumentSpec, m: int, i: int)
    requires
        model::in_key_order(doc.resources),
        0 <= m < dedup::all_images(doc.pages).len(),
        0 <= i < doc.resources.len(),
        dedup::belongs_to(dedup::all_images(doc.pages)[m].0, doc.resources[i].0),
        forall|p: int|
            0 <= p < m ==> (#[trigger] dedup::all_images(doc.pages)[p]).1.data
                != dedup::all_images(doc.pages)[m].1.data,
        forall|p: int, q: int|
            0 <= p < dedup::all_images(doc.pages).len() && 0 <= q < doc.resources.len()
                && dedup::belongs_to(
                (#[trigger] dedup::all_images(doc.pages)[p]).0,
                (#[trigger] doc.resources[q]).0,
            ) ==> dedup::all_images(doc.pages)[p].1.data == doc.resources[q].1.data,
    ensures
        dedup::collapsed(doc).resources.contains(doc.resources[i]),
{
    let s = doc.resources;
    let images = dedup::all_images(doc.pages);
    let turns = reading(doc);
    lemma_turn(images, s[i].0);
    assert(images[m].1.data == s[i].1.data);
    assert forall|j: int|
        0 <= j < s.len() && j != i && (#[trigger] s[j]).1.data
            == s[i].1.data implies dedup::comes_first(turns, i, j) by {
        lemma_turn(images, s[j].0);
        if let Some(p) = turns[j] {
            assert(images[p as int].1.data == s[j].1.data);
            if p == m {
                vstd::utf8::encode_utf8_decode_utf8(s[i].0);
                vstd::utf8::encode_utf8_decode_utf8(s[j].0);
                assert(s[i].0 == s[j].0);
                model::keys_are_in_strict_order(s[i].0, s[j].0, s[i].0);
                assert(i < j ==> model::key_before(s[i].0, s[j].0));
                assert(j < i ==> model::key_before(s[j].0, s[i].0));
            }
        }
    }
    the_first_of_equal_resources_stays(doc, i);
}

/// Once duplicates were collapsed, no two resources that are left have the same bytes, but for
/// those without bytes.
pub proof fn resources_that_are_left_differ(doc: DocumentSpec, i: int, j: int)
    requires
        dedup::aliases(doc.pages).dom() != Set::<Seq<char>>::empty(),
        collision_free(doc.resources, dedup::digests_of(doc.resources)),
        0 <= i < j < dedup::collapsed(doc).resources.len(),
        dedup::collapsed(doc).resources[i].1.data == dedup::collapsed(doc).resources[j].1.data,
    ensures
        dedup::collapsed(doc).resources[i].1.data.len() == 0,
{
    let s = doc.resources;
    let digests = dedup::digests_of(s);
    let turns = reading(doc);
    let kept = dedup::collapsed(doc).resources;
    let n = s.len() as int;
    let a = lemma_kept_place(s, digests, turns, n, i);
    let b = choose|b: int|
        a < b < n && !(#[trigger] dedup::is_copy(s, digests, turns, b)) && s[b] == kept[j];
    if kept[i].1.data.len() > 0 {
        let f = lemma_first_exists(s, digests, turns, a);
        assert(digests[f] == digests[a]);
        assert(digests[b] == digests[a]);
        assert(dedup::is_first(s, digests, turns, f));
        assert(f == a && f == b);
    }
}

/// Collapsing keeps the pages, their order and their numbers, and on each page the blocks and
/// their order. A block that is no image stays; an image keeps its description, and it keeps
/// its id exactly where that id does not defer to another.
pub proof fn collapsing_changes_nothing_but_ids(doc: DocumentSpec, page: int, place: int)
    requires
        0 <= page < doc.pages.len(),
        0 <= place < doc.pages[page].elements.len(),
    ensures
        dedup::collapsed(doc).pages.len() == doc.pages.len(),
        dedup::collapsed(doc).pages[page].number == doc.pages[page].number,
        dedup::collapsed(doc).pages[page].elements.len() == doc.pages[page].elements.len(),
        dedup::collapsed(doc).ai_fallback_count == doc.ai_fallback_count,
        dedup::collapsed(doc).pages[page].elements[place] == (match doc.pages[page].elements[place] {
            BlockSpec::Image(id, alt) => BlockSpec::Image(
                if dedup::aliases(doc.pages).contains_key(id) {
                    dedup::aliases(doc.pages)[id]
                } else {
                    id
                },
                alt,
            ),
            b => b,
        }),
{
    let alias = dedup::aliases(doc.pages);
    if alias.dom() == Set::<Seq<char>>::empty() {
        assert forall|id: Seq<char>| !alias.contains_key(id) by {
            assert(!alias.dom().contains(id));
        }
    }
}

/// The images that a page keeps are those whose id does not defer to another, in their order:
/// one that stays comes at the place that is the number of those before it that stay.
pub proof fn pages_keep_their_other_images(
    images: Seq<(Seq<char>, ResourceSpec)>,
    alias: Map<Seq<char>, Seq<char>>,
    i: int,
)
    requires
        0 <= i < images.len(),
    ensures
        ({
            let kept = dedup::kept_images(images, alias);
            let before = dedup::kept_images(images.take(i), alias).len() as int;
            &&& !alias.contains_key(images[i].0) ==> before < kept.len() && kept[before]
                == images[i]
            &&& dedup::kept_images(images.take(i + 1), alias).len() == before + (
            if alias.contains_key(images[i].0) {
                0int
            } else {
                1int
            })
        }),
{
    let one = seq![images[i]];
    assert(images =~= images.take(i) + (one + images.skip(i + 1)));
    dedup::lemma_kept_concat(images.take(i), one + images.skip(i + 1), alias);
    dedup::lemma_kept_concat(one, images.skip(i + 1), alias);
    assert(images.take(i + 1) =~= images.take(i) + one);
    dedup::lemma_kept_concat(images.take(i), one, alias);
    assert(one.skip(1) =~= Seq::<(Seq<char>, ResourceSpec)>::empty());
    reveal_with_fuel(dedup::kept_images, 2);
}

/// The id of an image is its key and an extension: it belongs to the resource whose key is what
/// stands before the last dot, and an id without a dot to the resource under the id itself.
pub proof fn an_image_belongs_to_the_key_before_its_extension(
    id: Seq<char>,
    key: Seq<char>,
    extension: Seq<u8>,
)
    requires
        forall|i: int| 0 <= i < extension.len() ==> (#[trigger] extension[i]) != 0x2e,
        vstd::utf8::encode_utf8(id) == vstd::utf8::encode_utf8(key) + seq![0x2eu8] + extension || (
        id == key && forall|i: int|
            0 <= i < vstd::utf8::encode_utf8(key).len() ==> (
            #[trigger] vstd::utf8::encode_utf8(key)[i]) != 0x2e),
    ensures
        dedup::belongs_to(id, key),
{
    let s = vstd::utf8::encode_utf8(id);
    let k = vstd::utf8::encode_utf8(key);
    if s == k + seq![0x2eu8] + extension {
        lemma_last_dot(k, extension);
        assert(s.take(k.len() as int) =~= k);
    } else {
        lemma_no_dot(k);
    }
}

proof fn lemma_last_dot(k: Seq<u8>, extension: Seq<u8>)
    requires
        forall|i: int| 0 <= i < extension.len() ==> (#[trigger] extension[i]) != 0x2e,
    ensures
        dedup::last_dot(k + seq![0x2eu8] + extension) == k.len(),
    decreases extension.len(),
{
    let s = k + seq![0x2eu8] + extension;
    if extension.len() > 0 {
        let n = extension.len() - 1;
        assert(extension[n] != 0x2e);
        assert(s.drop_last() =~= k + seq![0x2eu8] + extension.drop_last());
        lemma_last_dot(k, extension.drop_last());
    } else {
        assert(s.last() == 0x2e);
    }
}

proof fn lemma_no_dot(s: Seq<u8>)
    requires
        forall|i: int| 0 <= i < s.len() ==> (#[trigger] s[i]) != 0x2e,
    ensures
        dedup::last_dot(s) == -1,
    decreases s.len(),
{
    if s.len() > 0 {
        let n = s.len() - 1;
        assert(s[n] != 0x2e);
        lemma_no_dot(s.drop_last());
    }
}

/// Digests tell bytes apart exactly where MD5 does.
pub proof fn digests_tell_bytes_apart_as_md5_does(a: Seq<u8>, b: Seq<u8>)
    requires
        cipher::md5_digest(a).len() == 16,
        cipher::md5_digest(b).len() == 16,
    ensures
        dedup::digest_of(a) == dedup::digest_of(b) <==> cipher::md5_digest(a)
            == cipher::md5_digest(b),
{
    let x = cipher::md5_digest(a);
    let y = cipher::md5_digest(b);
    numbers::lemma_sixteen_bytes(x);
    numbers::lemma_sixteen_bytes(y);
    if dedup::digest_of(a) == dedup::digest_of(b) {
        numbers::bytes_of_one_length_write_different_numbers(x, y);
    }
}

/// The images of a document are those of its pages, page by page and each page's in its order.
pub proof fn images_come_page_by_page(a: Seq<PageSpec>, p: PageSpec, b: Seq<PageSpec>)
    ensures
        dedup::all_images(a + seq![p] + b) == dedup::all_images(a) + p.images + dedup::all_images(b),
        dedup::all_images(Seq::<PageSpec>::empty()).len() == 0,
    decreases b.len(),
{
    let all = a + seq![p] + b;
    if b.len() == 0 {
        assert(all.drop_last() =~= a);
        assert(all.last() == p);
        assert(dedup::all_images(a) + p.images + dedup::all_images(b) =~= dedup::all_images(a)
            + p.images);
    } else {
        images_come_page_by_page(a, p, b.drop_last());
        assert(all.drop_last() =~= a + seq![p] + b.drop_last());
        assert(all.last() == b.last());
        assert(dedup::all_images(a) + p.images + dedup::all_images(b.drop_last())
            + b.last().images =~= dedup::all_images(a) + p.images + dedup::all_images(b));
    }
}

} // verus!
