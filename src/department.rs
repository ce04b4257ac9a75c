use vstd::prelude::*;
use crate::text::{starts_with, to_upper, upper_of};

verus! {

/// A barcode prefix and the department that owns the barcodes starting with it.
pub struct DepartmentMapping {
    pub prefix: String,
    pub department: String,
}

impl DepartmentMapping {
    pub fn duplicate(&self) -> (r: DepartmentMapping)
        ensures
            r == *self,
    {
        DepartmentMapping { prefix: self.prefix.clone(), department: self.department.clone() }
    }
}

/// Mapping `i` is the one chosen for the (case-folded) barcode `b`, given the
/// case-folded prefixes `folded`: its prefix matches, no matching prefix is
/// longer, and every earlier matching prefix is shorter.
pub open spec fn is_best(
    mappings: Seq<DepartmentMapping>,
    folded: Seq<Seq<char>>,
    b: Seq<char>,
    i: int,
) -> bool {
    &&& 0 <= i < mappings.len()
    &&& folded[i].is_prefix_of(b)
    &&& forall|j: int|
        0 <= j < mappings.len() && #[trigger] folded[j].is_prefix_of(b)
            ==> mappings[j].prefix@.len() <= mappings[i].prefix@.len()
    &&& forall|j: int|
        0 <= j < i && #[trigger] folded[j].is_prefix_of(b)
            ==> mappings[j].prefix@.len() < mappings[i].prefix@.len()
}

pub open spec fn any_match(folded: Seq<Seq<char>>, b: Seq<char>) -> bool {
    exists|j: int| 0 <= j < folded.len() && #[trigger] folded[j].is_prefix_of(b)
}

/// The case-folded prefixes of the mappings.
pub open spec fn folded_prefixes(mappings: Seq<DepartmentMapping>) -> Seq<Seq<char>> {
    mappings.map_values(|m: DepartmentMapping| upper_of(m.prefix@))
}

/// At most one mapping is the chosen one.
pub proof fn lemma_best_unique(
    mappings: Seq<DepartmentMapping>,
    folded: Seq<Seq<char>>,
    b: Seq<char>,
    i: int,
    k: int,
)
    requires
        is_best(mappings, folded, b, i),
        is_best(mappings, folded, b, k),
    ensures
        i == k,
{
    if i < k {
        assert(folded[i].is_prefix_of(b));
    } else if k < i {
        assert(folded[k].is_prefix_of(b));
    }
}

/// The department that `barcode` resolves to: that of the mapping with the
/// longest prefix matching it case-insensitively, the first such in table order;
/// `None` when no prefix matches.
pub open spec fn department_of(mappings: Seq<DepartmentMapping>, barcode: Seq<char>) -> Option<Seq<char>> {
    let folded = folded_prefixes(mappings);
    let b = upper_of(barcode);
    if any_match(folded, b) {
        Some(mappings[choose|i: int| is_best(mappings, folded, b, i)].department@)
    } else {
        None
    }
}

pub open spec fn opt_view(o: Option<String>) -> Option<Seq<char>> {
    match o {
        Some(s) => Some(s@),
        None => None,
    }
}

/// Picks the mapping for an already case-folded barcode, given each mapping's
/// case-folded prefix.
pub fn best_mapping(
    mappings: &Vec<DepartmentMapping>,
    folded_prefixes: &Vec<String>,
    folded_barcode: &str,
) -> (r: Option<usize>)
    requires
        folded_prefixes.len() == mappings.len(),
    ensures
        match r {
            Some(i) => is_best(mappings@, folded_prefixes@.map_values(|s: String| s@), folded_barcode@, i as int),
            None => !any_match(folded_prefixes@.map_values(|s: String| s@), folded_barcode@),
        },
{
    let ghost folded = folded_prefixes@.map_values(|s: String| s@);
    let ghost b = folded_barcode@;
    let mut best: Option<usize> = None;
    let mut best_len: usize = 0;
    let mut i: usize = 0;
    while i < mappings.len()
        invariant
            folded_prefixes.len() == mappings.len(),
            folded == folded_prefixes@.map_values(|s: String| s@),
            b == folded_barcode@,
            i <= mappings.len(),
            match best {
                Some(k) => {
                    &&& k < i
                    &&& best_len == mappings@[k as int].prefix@.len()
                    &&& folded[k as int].is_prefix_of(b)
                    &&& forall|j: int| 0 <= j < i && #[trigger] folded[j].is_prefix_of(b)
                        ==> mappings@[j].prefix@.len() <= best_len
                    &&& forall|j: int| 0 <= j < k && #[trigger] folded[j].is_prefix_of(b)
                        ==> mappings@[j].prefix@.len() < best_len
                },
                None => forall|j: int| 0 <= j < i ==> !(#[trigger] folded[j].is_prefix_of(b)),
            },
        decreases mappings.len() - i,
    {
        if starts_with(folded_barcode, folded_prefixes[i].as_str()) {
            let len = mappings[i].prefix.as_str().unicode_len();
            match best {
                None => {
                    best = Some(i);
                    best_len = len;
                },
                Some(_) => {
                    if len > best_len {
                        best = Some(i);
                        best_len = len;
                    }
                },
            }
        }
        i = i + 1;
    }
    best
}

/// Case-folds each mapping's prefix.
fn fold_prefixes(mappings: &Vec<DepartmentMapping>) -> (r: Vec<String>)
    ensures
        r.len() == mappings.len(),
        r@.map_values(|s: String| s@) == folded_prefixes(mappings@),
{
    let mut r: Vec<String> = Vec::new();
    let mut i: usize = 0;
    while i < mappings.len()
        invariant
            i <= mappings.len(),
            r.len() == i,
            forall|k: int| 0 <= k < i ==> #[trigger] r@[k]@ == upper_of(mappings@[k].prefix@),
        decreases mappings.len() - i,
    {
        r.push(to_upper(mappings[i].prefix.as_str()));
        i = i + 1;
    }
    assert(r@.map_values(|s: String| s@) =~= folded_prefixes(mappings@));
    r
}

/// The department of the longest mapping prefix that starts `barcode`, compared
/// case-insensitively; `None` when no prefix matches.
pub fn get_department_from_barcode(mappings: &Vec<DepartmentMapping>, barcode: &str) -> (r: Option<String>)
    ensures
        opt_view(r) == department_of(mappings@, barcode@),
{
    let folded = fold_prefixes(mappings);
    let b = to_upper(barcode);
    match best_mapping(mappings, &folded, b.as_str()) {
        Some(i) => {
            proof {
                let fv = folded_prefixes(mappings@);
                assert(is_best(mappings@, fv, b@, i as int));
                let c = choose|k: int| is_best(mappings@, fv, b@, k);
                lemma_best_unique(mappings@, fv, b@, i as int, c);
            }
            Some(mappings[i].department.clone())
        },
        None => None,
    }
}

/// Whether some mapping prefix starts `barcode`, compared case-insensitively.
pub fn has_valid_department_prefix(mappings: &Vec<DepartmentMapping>, barcode: &str) -> (r: bool)
    ensures
        r == any_match(folded_prefixes(mappings@), upper_of(barcode@)),
{
    let d = get_department_from_barcode(mappings, barcode);
    d.is_some()
}

} // verus!
