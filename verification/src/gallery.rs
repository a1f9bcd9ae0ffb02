//! The gallery listing: every stored name is decoded, and the images are
//! ordered by their timestamp, most recent first.

use vstd::prelude::*;

use crate::codec::decode;
use crate::codec::image_view_of;
use crate::codec::valid_name;
use crate::codec::DisplayImage;
use crate::codec::ImageView;
use crate::errors::BoothError;
use crate::upload::Booth;

verus! {

/// The images are in (weakly) descending timestamp order.
pub open spec fn sorted_desc(s: Seq<ImageView>) -> bool {
    forall|i: int, j: int| 0 <= i < j < s.len() ==> s[i].sort_key >= s[j].sort_key
}

/// The views of a sequence of images.
pub open spec fn views_of(s: Seq<DisplayImage>) -> Seq<ImageView> {
    s.map_values(|d: DisplayImage| d@)
}

/// Index of an image with the greatest timestamp.
fn max_key_index(v: &Vec<DisplayImage>) -> (r: usize)
    requires
        v@.len() > 0,
    ensures
        r < v@.len(),
        forall|i: int| 0 <= i < v@.len() ==> v@[i].sort_key <= v@[r as int].sort_key,
{
    let mut best: usize = 0;
    let mut k: usize = 1;
    while k < v.len()
        invariant
            best < k <= v@.len(),
            forall|i: int| 0 <= i < k ==> v@[i].sort_key <= v@[best as int].sort_key,
        decreases v@.len() - k,
    {
        if v[k].sort_key > v[best].sort_key {
            best = k;
        }
        k += 1;
    }
    best
}

/// Sort images by timestamp, most recent first, keeping exactly the same
/// images (as a multiset).
fn sort_images_desc(v: Vec<DisplayImage>) -> (r: Vec<DisplayImage>)
    ensures
        sorted_desc(views_of(r@)),
        r@.to_multiset() == v@.to_multiset(),
{
    broadcast use vstd::prelude::Seq::to_multiset_ensures, vstd::multiset::group_multiset_axioms;

    let mut rem = v;
    let mut out: Vec<DisplayImage> = Vec::new();
    proof {
        out@.to_multiset_ensures();
        assert forall|y: DisplayImage| #[trigger] out@.to_multiset().count(y) == 0 by {
            assert(!out@.contains(y));
        }
        assert(out@.to_multiset().add(rem@.to_multiset()) =~= v@.to_multiset());
    }
    while rem.len() > 0
        invariant
            out@.to_multiset().add(rem@.to_multiset()) == v@.to_multiset(),
            sorted_desc(views_of(out@)),
            forall|i: int, j: int|
                0 <= i < out@.len() && 0 <= j < rem@.len() ==> out@[i].sort_key
                    >= rem@[j].sort_key,
        decreases rem@.len(),
    {
        let mi = max_key_index(&rem);
        let ghost old_rem = rem@;
        let ghost old_out = out@;
        let x = rem.remove(mi);
        out.push(x);
        proof {
            old_rem.to_multiset_ensures();
            old_out.to_multiset_ensures();
            assert(old_rem.contains(x)) by {
                assert(old_rem[mi as int] == x);
            }
            assert(old_rem.to_multiset().count(x) > 0);
            assert(rem@.to_multiset() =~= old_rem.to_multiset().remove(x));
            assert(out@.to_multiset() =~= old_out.to_multiset().insert(x));
            assert(out@.to_multiset().add(rem@.to_multiset()) =~= v@.to_multiset());
            assert(views_of(out@) =~= views_of(old_out).push(x@));
            assert forall|i: int, j: int|
                0 <= i < out@.len() && 0 <= j < rem@.len() implies out@[i].sort_key
                >= rem@[j].sort_key by {
                assert(rem@[j] == if j < mi { old_rem[j] } else { old_rem[j + 1] });
                if i < old_out.len() {
                    assert(out@[i] == old_out[i]);
                } else {
                    assert(out@[i] == x);
                }
            }
            assert(sorted_desc(views_of(out@)));
        }
    }
    proof {
        rem@.to_multiset_ensures();
        assert forall|y: DisplayImage| #[trigger] rem@.to_multiset().count(y) == 0 by {
            assert(!rem@.contains(y));
        }
        assert(out@.to_multiset() =~= v@.to_multiset());
    }
    out
}

/// Two sequences with the same elements have the same element views.
proof fn lemma_to_multiset_map_views(a: Seq<DisplayImage>, b: Seq<DisplayImage>)
    requires
        a.to_multiset() == b.to_multiset(),
    ensures
        views_of(a).to_multiset() == views_of(b).to_multiset(),
    decreases a.len(),
{
    broadcast use vstd::prelude::Seq::to_multiset_ensures, vstd::multiset::group_multiset_axioms;

    a.to_multiset_ensures();
    b.to_multiset_ensures();
    if a.len() == 0 {
        assert(b.len() == 0);
        assert(views_of(a) =~= Seq::<ImageView>::empty());
        assert(views_of(b) =~= Seq::<ImageView>::empty());
    } else {
        let x = a.last();
        a.drop_last().to_multiset_ensures();
        assert(a =~= a.drop_last().push(x));
        assert(a.to_multiset() == a.drop_last().to_multiset().insert(x));
        assert(b.to_multiset().count(x) > 0);
        assert(b.contains(x));
        let j = choose|j: int| 0 <= j < b.len() && b[j] == x;
        assert(b.remove(j).to_multiset() =~= b.to_multiset().remove(x));
        assert(a.drop_last().to_multiset() =~= a.to_multiset().remove(x));
        lemma_to_multiset_map_views(a.drop_last(), b.remove(j));
        views_of(a.drop_last()).to_multiset_ensures();
        views_of(b).to_multiset_ensures();
        assert(views_of(a) =~= views_of(a.drop_last()).push(x@));
        assert(views_of(a).to_multiset() == views_of(a.drop_last()).to_multiset().insert(x@));
        assert(views_of(b.remove(j)) =~= views_of(b).remove(j));
        assert(views_of(b).remove(j).to_multiset() =~= views_of(b).to_multiset().remove(
            views_of(b)[j],
        ));
        assert(views_of(b)[j] == x@);
        assert(views_of(b).to_multiset().count(x@) > 0) by {
            assert(views_of(b).contains(x@)) by {
                assert(views_of(b)[j] == x@);
            }
        }
        assert(views_of(b).to_multiset() =~= views_of(b).to_multiset().remove(x@).insert(x@));
        assert(views_of(a).to_multiset() == views_of(b).to_multiset());
    }
}

/// Decode every stored name and order the images by timestamp, most recent
/// first. A single malformed name fails the whole listing with `MalformedName`.
pub fn list_images(names: &Vec<String>) -> (r: Result<Vec<DisplayImage>, BoothError>)
    ensures
        match r {
            Ok(v) => {
                &&& forall|i: int| 0 <= i < names@.len() ==> valid_name(names@[i]@)
                &&& sorted_desc(views_of(v@))
                &&& views_of(v@).to_multiset() == names@.map_values(
                    |n: String| image_view_of(n@),
                ).to_multiset()
            },
            Err(e) => {
                &&& e == BoothError::MalformedName
                &&& exists|i: int| 0 <= i < names@.len() && !valid_name(names@[i]@)
            },
        },
{
    let mut imgs: Vec<DisplayImage> = Vec::new();
    let mut i: usize = 0;
    while i < names.len()
        invariant
            i <= names@.len(),
            imgs@.len() == i,
            forall|k: int| 0 <= k < i ==> valid_name(names@[k]@),
            forall|k: int| 0 <= k < i ==> imgs@[k]@ == image_view_of(names@[k]@),
        decreases names@.len() - i,
    {
        match decode(names[i].as_str()) {
            Ok(img) => {
                imgs.push(img);
            },
            Err(e) => {
                return Err(e);
            },
        }
        i += 1;
    }
    let ghost decoded = imgs@;
    let sorted = sort_images_desc(imgs);
    proof {
        lemma_to_multiset_map_views(sorted@, decoded);
        assert(views_of(decoded) =~= names@.map_values(|n: String| image_view_of(n@)));
    }
    Ok(sorted)
}

impl Booth {
    /// List the booth's gallery: every stored name decoded, most recent first.
    pub fn list(&self) -> (r: Result<Vec<DisplayImage>, BoothError>)
        ensures
            match r {
                Ok(v) => {
                    &&& forall|i: int| 0 <= i < self.names().len() ==> valid_name(self.names()[i])
                    &&& sorted_desc(views_of(v@))
                    &&& views_of(v@).to_multiset() == self.names().map_values(
                        |n: Seq<char>| image_view_of(n),
                    ).to_multiset()
                },
                Err(e) => {
                    &&& e == BoothError::MalformedName
                    &&& exists|i: int| 0 <= i < self.names().len() && !valid_name(self.names()[i])
                },
            },
    {
        let mut names: Vec<String> = Vec::new();
        let mut i: usize = 0;
        while i < self.files.len()
            invariant
                i <= self.files@.len(),
                names@.len() == i,
                forall|k: int| 0 <= k < i ==> names@[k]@ == self.names()[k],
            decreases self.files@.len() - i,
        {
            names.push(self.files[i].name.clone());
            i += 1;
        }
        let r = list_images(&names);
        proof {
            assert(names@.map_values(|n: String| image_view_of(n@)) =~= self.names().map_values(
                |n: Seq<char>| image_view_of(n),
            ));
            if r is Ok {
                assert forall|i2: int| 0 <= i2 < self.names().len() implies valid_name(
                    self.names()[i2],
                ) by {
                    assert(names@[i2]@ == self.names()[i2]);
                    assert(valid_name(names@[i2]@));
                }
            } else {
                let i2 = choose|i2: int| 0 <= i2 < names@.len() && !valid_name(names@[i2]@);
                assert(names@[i2]@ == self.names()[i2]);
                assert(0 <= i2 < self.names().len() && !valid_name(self.names()[i2]));
            }
        }
        r
    }
}

/// Law: over images with pairwise distinct timestamps, a sorted listing is
/// strictly descending.
pub proof fn lemma_listing_strictly_descending(listed: Seq<ImageView>, inputs: Seq<ImageView>)
    requires
        listed.to_multiset() == inputs.to_multiset(),
        sorted_desc(listed),
        forall|i: int, j: int|
            0 <= i < j < inputs.len() ==> inputs[i].sort_key != inputs[j].sort_key,
    ensures
        forall|i: int, j: int| 0 <= i < j < listed.len() ==> listed[i].sort_key > listed[j].sort_key,
{
    broadcast use vstd::prelude::Seq::to_multiset_ensures, vstd::multiset::group_multiset_axioms;

    assert forall|i: int, j: int|
        0 <= i < j < listed.len() implies listed[i].sort_key > listed[j].sort_key by {
        if listed[i].sort_key == listed[j].sort_key {
            if listed[i] == listed[j] {
                let x = listed[j];
                listed.to_multiset_ensures();
                inputs.to_multiset_ensures();
                listed.remove(j).to_multiset_ensures();
                assert(listed.remove(j).to_multiset() =~= listed.to_multiset().remove(x));
                assert(listed.remove(j)[i] == x);
                assert(listed.remove(j).contains(x));
                assert(listed.remove(j).to_multiset().count(x) > 0);
                assert(listed.to_multiset().count(x) >= 2);
                assert(inputs.to_multiset().count(x) >= 2);
                assert(inputs.contains(x));
                let k = choose|k: int| 0 <= k < inputs.len() && inputs[k] == x;
                lemma_second_position(inputs, x, k);
                let m = choose|m: int| 0 <= m < inputs.len() && m != k && inputs[m] == x;
                if m < k {
                    assert(inputs[m].sort_key != inputs[k].sort_key);
                } else {
                    assert(inputs[k].sort_key != inputs[m].sort_key);
                }
                assert(false);
            } else {
                listed.to_multiset_ensures();
                inputs.to_multiset_ensures();
                assert(listed.contains(listed[i]));
                assert(inputs.to_multiset().count(listed[i]) > 0);
                assert(inputs.contains(listed[i]));
                assert(listed.contains(listed[j]));
                assert(inputs.to_multiset().count(listed[j]) > 0);
                assert(inputs.contains(listed[j]));
                let a = choose|a: int| 0 <= a < inputs.len() && inputs[a] == listed[i];
                let b = choose|b: int| 0 <= b < inputs.len() && inputs[b] == listed[j];
                assert(a != b);
                assert(false);
            }
        }
    }
}

/// A value counted at least twice in a sequence's multiset sits at a second
/// position besides any given one.
proof fn lemma_second_position(s: Seq<ImageView>, x: ImageView, k: int)
    requires
        0 <= k < s.len(),
        s[k] == x,
        s.to_multiset().count(x) >= 2,
    ensures
        exists|m: int| 0 <= m < s.len() && m != k && s[m] == x,
{
    broadcast use vstd::prelude::Seq::to_multiset_ensures, vstd::multiset::group_multiset_axioms;

    let rest = s.remove(k);
    s.to_multiset_ensures();
    rest.to_multiset_ensures();
    assert(rest.to_multiset() =~= s.to_multiset().remove(x));
    assert(rest.to_multiset().count(x) >= 1);
    assert(rest.contains(x));
    let m = choose|m: int| 0 <= m < rest.len() && rest[m] == x;
    if m < k {
        assert(s[m] == x);
    } else {
        assert(s[m + 1] == x);
    }
}

} // verus!
