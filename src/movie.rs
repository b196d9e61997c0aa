use vstd::prelude::*;

verus! {

/// A catalog item: its external identifier, display name and category labels.
#[derive(Clone, Debug)]
pub struct Movie {
    pub movie_id: i32,
    pub title: String,
    pub genres: Vec<String>,
}

/// What `<[String]>::sort` makes of a list of labels: the labels in ascending
/// byte-wise order.
pub uninterp spec fn sorted_labels_of(labels: Seq<Seq<char>>) -> Seq<Seq<char>>;

/// The labels of `labels` joined with a comma between each two.
pub open spec fn comma_joined(labels: Seq<Seq<char>>) -> Seq<char>
    decreases labels.len(),
{
    if labels.len() == 0 {
        Seq::empty()
    } else if labels.len() == 1 {
        labels[0]
    } else {
        comma_joined(labels.drop_last()) + seq![','] + labels.last()
    }
}

/// The canonical category-combination key of a set of labels: the labels
/// sorted and joined by commas.
pub open spec fn genres_key_of(genres: Seq<Seq<char>>) -> Seq<char> {
    comma_joined(sorted_labels_of(genres))
}

/// Relies on `<[String]>::sort` (stable sort by `Ord for String`): the result
/// is a reordering of the input, the one named by `sorted_labels_of`.
#[verifier::external_body]
fn sort_labels(labels: &Vec<String>) -> (r: Vec<String>)
    ensures
        r.deep_view() == sorted_labels_of(labels.deep_view()),
        r.deep_view().to_multiset() == labels.deep_view().to_multiset(),
{
    let mut r = labels.clone();
    r.sort();
    r
}

/// The category-combination key of `genres`: sorted labels, comma-joined.
pub fn get_genres_key(genres: &Vec<String>) -> (key: String)
    ensures
        key@ == genres_key_of(genres.deep_view()),
{
    let sorted = sort_labels(genres);
    let ghost labels = sorted.deep_view();
    let sep = ",";
    proof {
        reveal_strlit(",");
    }
    let mut key = String::new();
    let mut i: usize = 0;
    while i < sorted.len()
        invariant
            i <= sorted.len(),
            labels == sorted.deep_view(),
            sep@ == seq![','],
            key@ == comma_joined(labels.take(i as int)),
        decreases sorted.len() - i,
    {
        proof {
            assert(labels.take(i + 1).drop_last() == labels.take(i as int));
        }
        if i > 0 {
            key.append(sep);
        }
        key.append(sorted[i].as_str());
        i = i + 1;
    }
    proof {
        assert(labels.take(i as int) == labels);
    }
    key
}

} // verus!
