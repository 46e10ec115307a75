//! The catalog of storage devices and their partitions, with short
//! identifiers: the shortest ending of each identifier that no other
//! identifier in the catalog ends with.
use vstd::prelude::*;
use vstd::string::*;

verus! {

/// What is known of a device besides its identifier.
#[derive(Clone, Debug)]
pub struct StorageDetails {
    pub size: u64,
    pub storage_type: String,
    pub label: Option<String>,
    pub mount_point: Option<String>,
}

/// A device, with its partitions as children.
#[derive(Debug)]
pub struct StorageRef {
    pub id: String,
    pub details: StorageDetails,
    pub children: Vec<StorageRef>,
}

/// The last `k` characters of `t`.
pub open spec fn suffix(t: Seq<char>, k: int) -> Seq<char> {
    t.subrange(t.len() - k, t.len() as int)
}

pub open spec fn ends_with(t: Seq<char>, s: Seq<char>) -> bool {
    s.len() <= t.len() && suffix(t, s.len() as int) == s
}

/// No identifier but the `i`-th ends with its last `k` characters.
pub open spec fn unique_at(ids: Seq<Seq<char>>, i: int, k: int) -> bool {
    forall|j: int| 0 <= j < ids.len() && j != i ==> !ends_with(#[trigger] ids[j], suffix(ids[i], k))
}

/// The least length from `k` on whose ending is unique; the whole length
/// where none is.
pub open spec fn shortest_unique(ids: Seq<Seq<char>>, i: int, k: int) -> int
    decreases ids[i].len() - k,
{
    if k >= ids[i].len() {
        ids[i].len() as int
    } else if unique_at(ids, i, k) {
        k
    } else {
        shortest_unique(ids, i, k + 1)
    }
}

/// The short identifier of the `i`-th identifier.
pub open spec fn short_id(ids: Seq<Seq<char>>, i: int) -> Seq<char> {
    suffix(ids[i], shortest_unique(ids, i, 1))
}

pub open spec fn views(v: Seq<String>) -> Seq<Seq<char>> {
    Seq::new(v.len(), |j: int| v[j]@)
}

/// How many of the first `n` entries `s` names, by long or short identifier.
pub open spec fn count_matches(ids: Seq<Seq<char>>, shorts: Seq<Seq<char>>, s: Seq<char>, n: int) -> nat
    decreases n,
{
    if n <= 0 {
        0
    } else {
        count_matches(ids, shorts, s, n - 1) + if ids[n - 1] == s || shorts[n - 1] == s {
            1nat
        } else {
            0nat
        }
    }
}

fn ends_with_suffix(t: &str, id: &str, k: usize) -> (r: bool)
    requires
        k <= id@.len(),
    ensures
        r == ends_with(t@, suffix(id@, k as int)),
{
    let tl = t.unicode_len();
    let il = id.unicode_len();
    if k > tl {
        return false;
    }
    let mut m: usize = 0;
    while m < k
        invariant
            k <= tl == t@.len(),
            k <= il == id@.len(),
            0 <= m <= k,
            forall|x: int| 0 <= x < m ==> #[trigger] suffix(t@, k as int)[x] == suffix(id@, k as int)[x],
        decreases k - m,
    {
        if t.get_char(tl - k + m) != id.get_char(il - k + m) {
            assert(suffix(t@, k as int)[m as int] != suffix(id@, k as int)[m as int]);
            return false;
        }
        m = m + 1;
    }
    assert(suffix(t@, k as int) =~= suffix(id@, k as int));
    true
}

fn is_unique(ids: &Vec<String>, i: usize, k: usize) -> (r: bool)
    requires
        i < ids@.len(),
        k <= ids@[i as int]@.len(),
    ensures
        r == unique_at(views(ids@), i as int, k as int),
{
    let ghost v = views(ids@);
    let mut j: usize = 0;
    while j < ids.len()
        invariant
            i < ids@.len(),
            k <= ids@[i as int]@.len(),
            v == views(ids@),
            0 <= j <= ids@.len(),
            forall|x: int|
                0 <= x < j && x != i ==> !ends_with(#[trigger] v[x], suffix(v[i as int], k as int)),
        decreases ids@.len() - j,
    {
        if j != i && ends_with_suffix(ids[j].as_str(), ids[i].as_str(), k) {
            assert(ends_with(v[j as int], suffix(v[i as int], k as int)));
            return false;
        }
        j = j + 1;
    }
    true
}

fn compute_short_id(ids: &Vec<String>, i: usize) -> (r: String)
    requires
        i < ids@.len(),
    ensures
        r@ == short_id(views(ids@), i as int),
{
    let ghost v = views(ids@);
    let id = ids[i].as_str();
    let len = id.unicode_len();
    let mut k: usize = 1;
    while k < len && !is_unique(ids, i, k)
        invariant
            i < ids@.len(),
            v == views(ids@),
            id@ == v[i as int],
            len == v[i as int].len(),
            1 <= k,
            k <= len || len == 0,
            shortest_unique(v, i as int, k as int) == shortest_unique(v, i as int, 1),
        decreases len - k,
    {
        k = k + 1;
    }
    let k = if k > len {
        len
    } else {
        k
    };
    id.substring_char(len - k, len).to_owned()
}

/// The catalog: devices in the order they were found, and for every device
/// and partition its long and short identifier.
pub struct StorageRepo {
    devices: Vec<StorageRef>,
    ids: Vec<String>,
    short_ids: Vec<String>,
    places: Vec<(usize, Option<usize>)>,
}

/// Identifiers of the devices and their partitions, each device before its
/// partitions.
pub open spec fn flat_ids(devices: Seq<StorageRef>) -> Seq<Seq<char>>
    decreases devices.len(),
{
    if devices.len() == 0 {
        Seq::empty()
    } else {
        flat_ids(devices.drop_last()) + seq![devices.last().id@] + Seq::new(
            devices.last().children@.len(),
            |c: int| devices.last().children@[c].id@,
        )
    }
}

pub open spec fn place_holds(devices: Seq<StorageRef>, place: (usize, Option<usize>), id: Seq<char>) -> bool {
    &&& place.0 < devices.len()
    &&& match place.1 {
        None => devices[place.0 as int].id@ == id,
        Some(c) => c < devices[place.0 as int].children@.len()
            && devices[place.0 as int].children@[c as int].id@ == id,
    }
}

impl StorageRepo {
    pub closed spec fn ids_view(&self) -> Seq<Seq<char>> {
        views(self.ids@)
    }

    pub closed spec fn shorts_view(&self) -> Seq<Seq<char>> {
        views(self.short_ids@)
    }

    pub closed spec fn devices_view(&self) -> Seq<StorageRef> {
        self.devices@
    }

    pub closed spec fn wf(&self) -> bool {
        &&& self.ids@.len() == self.short_ids@.len()
        &&& self.ids@.len() == self.places@.len()
        &&& self.ids_view() == flat_ids(self.devices@)
        &&& forall|j: int|
            0 <= j < self.ids@.len() ==> #[trigger] self.short_ids@[j]@ == short_id(
                self.ids_view(),
                j,
            )
        &&& forall|j: int|
            0 <= j < self.ids@.len() ==> place_holds(
                self.devices@,
                #[trigger] self.places@[j],
                self.ids@[j]@,
            )
    }

    /// The catalog of `devices`, with a short identifier for each device
    /// and partition.
    pub fn new(devices: Vec<StorageRef>) -> (r: StorageRepo)
        ensures
            r.wf(),
            r.devices_view() == devices@,
            r.ids_view() == flat_ids(devices@),
            r.shorts_view().len() == r.ids_view().len(),
            forall|j: int|
                0 <= j < r.ids_view().len() ==> #[trigger] r.shorts_view()[j] == short_id(
                    r.ids_view(),
                    j,
                ),
    {
        let mut ids: Vec<String> = Vec::new();
        let mut places: Vec<(usize, Option<usize>)> = Vec::new();
        let mut p: usize = 0;
        while p < devices.len()
            invariant
                0 <= p <= devices@.len(),
                ids@.len() == places@.len(),
                views(ids@) == flat_ids(devices@.subrange(0, p as int)),
                forall|j: int|
                    0 <= j < ids@.len() ==> place_holds(devices@, #[trigger] places@[j], ids@[j]@),
            decreases devices@.len() - p,
        {
            let ghost before = views(ids@);
            let ghost old_ids = ids@;
            assert(devices@.subrange(0, p + 1).drop_last() =~= devices@.subrange(0, p as int));
            ids.push(devices[p].id.clone());
            places.push((p, None));
            assert(views(ids@) =~= views(old_ids).push(devices@[p as int].id@));
            assert(views(ids@) =~= before + seq![devices@[p as int].id@] + Seq::new(
                0 as nat,
                |x: int| devices@[p as int].children@[x].id@,
            ));
            let mut c: usize = 0;
            while c < devices[p].children.len()
                invariant
                    0 <= p < devices@.len(),
                    0 <= c <= devices@[p as int].children@.len(),
                    ids@.len() == places@.len(),
                    views(ids@) == before + seq![devices@[p as int].id@] + Seq::new(
                        c as nat,
                        |x: int| devices@[p as int].children@[x].id@,
                    ),
                    forall|j: int|
                        0 <= j < ids@.len() ==> place_holds(
                            devices@,
                            #[trigger] places@[j],
                            ids@[j]@,
                        ),
                decreases devices@[p as int].children@.len() - c,
            {
                let ghost old_ids = ids@;
                ids.push(devices[p].children[c].id.clone());
                places.push((p, Some(c)));
                assert(views(ids@) =~= views(old_ids).push(devices@[p as int].children@[c as int].id@));
                c = c + 1;
                assert(views(ids@) =~= before + seq![devices@[p as int].id@] + Seq::new(
                    c as nat,
                    |x: int| devices@[p as int].children@[x].id@,
                ));
            }
            p = p + 1;
            assert(views(ids@) =~= flat_ids(devices@.subrange(0, p as int)));
        }
        assert(devices@.subrange(0, p as int) =~= devices@);
        let mut short_ids: Vec<String> = Vec::new();
        let mut j: usize = 0;
        while j < ids.len()
            invariant
                0 <= j <= ids@.len(),
                short_ids@.len() == j,
                forall|x: int| 0 <= x < j ==> #[trigger] short_ids@[x]@ == short_id(views(ids@), x),
            decreases ids@.len() - j,
        {
            short_ids.push(compute_short_id(&ids, j));
            j = j + 1;
        }
        let r = StorageRepo { devices, ids, short_ids, places };
        assert forall|j: int| 0 <= j < r.ids_view().len() implies #[trigger] r.shorts_view()[j]
            == short_id(r.ids_view(), j) by {
            assert(r.short_ids@[j]@ == short_id(r.ids_view(), j));
        }
        r
    }

    /// The devices, in the order they were found.
    pub fn devices(&self) -> (r: &Vec<StorageRef>)
        ensures
            r@ == self.devices_view(),
    {
        &self.devices
    }

    /// The short identifier of the device or partition with long
    /// identifier `id`.
    pub fn get_short_id(&self, id: &str) -> (r: Option<&String>)
        requires
            self.wf(),
        ensures
            match r {
                Some(s) => exists|j: int|
                    0 <= j < self.ids_view().len() && self.ids_view()[j] == id@ && s@ == short_id(
                        self.ids_view(),
                        j,
                    ),
                None => forall|j: int| 0 <= j < self.ids_view().len() ==> self.ids_view()[j] != id@,
            },
    {
        let wanted = id.to_owned();
        let mut j: usize = 0;
        while j < self.ids.len()
            invariant
                self.wf(),
                wanted@ == id@,
                0 <= j <= self.ids@.len(),
                forall|x: int| 0 <= x < j ==> self.ids_view()[x] != id@,
            decreases self.ids@.len() - j,
        {
            if self.ids[j] == wanted {
                assert(self.short_ids@[j as int]@ == short_id(self.ids_view(), j as int));
                assert(self.ids_view()[j as int] == id@);
                return Some(&self.short_ids[j]);
            }
            j = j + 1;
        }
        None
    }

    /// The device or partition that `s` names by its long or its short
    /// identifier; none where no entry or more than one matches.
    pub fn find_by_id(&self, s: &str) -> (r: Option<&StorageRef>)
        requires
            self.wf(),
        ensures
            r is Some <==> count_matches(
                self.ids_view(),
                self.shorts_view(),
                s@,
                self.ids_view().len() as int,
            ) == 1,
            r matches Some(d) ==> exists|j: int|
                0 <= j < self.ids_view().len() && (self.ids_view()[j] == s@ || self.shorts_view()[j]
                    == s@) && d.id@ == self.ids_view()[j],
    {
        let wanted = s.to_owned();
        let mut count: usize = 0;
        let mut found: usize = 0;
        let mut j: usize = 0;
        while j < self.ids.len()
            invariant
                self.wf(),
                wanted@ == s@,
                0 <= j <= self.ids@.len(),
                count == count_matches(self.ids_view(), self.shorts_view(), s@, j as int),
                count <= j,
                count > 0 ==> found < j && (self.ids_view()[found as int] == s@
                    || self.shorts_view()[found as int] == s@),
            decreases self.ids@.len() - j,
        {
            if self.ids[j] == wanted || self.short_ids[j] == wanted {
                count = count + 1;
                found = j;
            }
            j = j + 1;
        }
        if count != 1 {
            return None;
        }
        let place = self.places[found];
        assert(place_holds(self.devices@, self.places@[found as int], self.ids@[found as int]@));
        match place.1 {
            None => Some(&self.devices[place.0]),
            Some(c) => Some(&self.devices[place.0].children[c]),
        }
    }
}

} // verus!
