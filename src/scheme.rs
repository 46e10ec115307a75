//! Sanitization schemes: named, ordered lists of passes.
use vstd::prelude::*;

verus! {

/// One traversal of the device with a single byte stream.
#[derive(Debug, Clone, Copy, PartialEq, Eq, Structural)]
pub enum Pass {
    /// The same byte everywhere.
    Fill(u8),
    /// A keystream drawn from a fresh seed recorded in the wipe state.
    Random,
}

/// A named ordered sequence of passes.
#[derive(Clone, Debug)]
pub struct Scheme {
    pub description: String,
    pub passes: Vec<Pass>,
}

impl View for Scheme {
    type V = Seq<Pass>;

    open spec fn view(&self) -> Seq<Pass> {
        self.passes@
    }
}

/// The schemes that are built in, keyed by their short name.
pub open spec fn builtin_schemes() -> Seq<(Seq<char>, Seq<Pass>)> {
    seq![
        ("zero"@, seq![Pass::Fill(0x00)]),
        ("one"@, seq![Pass::Fill(0xFF)]),
        ("random"@, seq![Pass::Random]),
        ("random2x"@, seq![Pass::Random, Pass::Random]),
        ("gost"@, seq![Pass::Fill(0x00), Pass::Random]),
        ("dod"@, seq![Pass::Fill(0x00), Pass::Fill(0xFF), Pass::Random]),
        ("vsitr"@, seq![
            Pass::Fill(0x00),
            Pass::Fill(0xFF),
            Pass::Fill(0x00),
            Pass::Fill(0xFF),
            Pass::Fill(0x00),
            Pass::Fill(0xFF),
            Pass::Random,
        ]),
    ]
}

/// No two entries of `table` share a name.
pub open spec fn keys_unique(table: Seq<(Seq<char>, Seq<Pass>)>) -> bool {
    forall|i: int, j: int| 0 <= i < j < table.len() ==> table[i].0 != table[j].0
}

/// The passes of the first entry of `table` named `key`.
pub open spec fn lookup(table: Seq<(Seq<char>, Seq<Pass>)>, key: Seq<char>) -> Option<Seq<Pass>>
    decreases table.len(),
{
    if table.len() == 0 {
        None
    } else if table[0].0 == key {
        Some(table[0].1)
    } else {
        lookup(table.skip(1), key)
    }
}

/// The repository of named schemes.
pub struct SchemeRepo {
    entries: Vec<(String, Scheme)>,
}

impl View for SchemeRepo {
    type V = Seq<(Seq<char>, Seq<Pass>)>;

    closed spec fn view(&self) -> Seq<(Seq<char>, Seq<Pass>)> {
        Seq::new(self.entries@.len(), |i: int| (self.entries@[i].0@, self.entries@[i].1@))
    }
}

fn scheme(key: &str, description: &str, passes: Vec<Pass>) -> (r: (String, Scheme))
    ensures
        r.0@ == key@,
        r.1@ == passes@,
{
    (key.to_owned(), Scheme { description: description.to_owned(), passes })
}

impl SchemeRepo {
    /// The repository of the built-in schemes.
    pub fn new() -> (r: SchemeRepo)
        ensures
            r@ == builtin_schemes(),
            keys_unique(r@),
    {
        let mut entries: Vec<(String, Scheme)> = Vec::new();
        entries.push(scheme("zero", "Single zeroes fill", vec![Pass::Fill(0x00)]));
        entries.push(scheme("one", "Single ones fill", vec![Pass::Fill(0xFF)]));
        entries.push(scheme("random", "Single random fill", vec![Pass::Random]));
        entries.push(
            scheme("random2x", "Double random fill", vec![Pass::Random, Pass::Random]),
        );
        entries.push(
            scheme("gost", "GOST R 50739-95", vec![Pass::Fill(0x00), Pass::Random]),
        );
        entries.push(
            scheme(
                "dod",
                "DoD 5220.22-M",
                vec![Pass::Fill(0x00), Pass::Fill(0xFF), Pass::Random],
            ),
        );
        entries.push(
            scheme(
                "vsitr",
                "VSITR",
                vec![
                    Pass::Fill(0x00),
                    Pass::Fill(0xFF),
                    Pass::Fill(0x00),
                    Pass::Fill(0xFF),
                    Pass::Fill(0x00),
                    Pass::Fill(0xFF),
                    Pass::Random,
                ],
            ),
        );
        let r = SchemeRepo { entries };
        assert(r@.len() == 7);
        assert forall|i: int| 0 <= i < 7 implies #[trigger] r@[i] == builtin_schemes()[i] by {
            assert(r@[i].1 =~= builtin_schemes()[i].1);
        }
        assert(r@ =~= builtin_schemes());
        proof {
            reveal_strlit("zero");
            reveal_strlit("one");
            reveal_strlit("random");
            reveal_strlit("random2x");
            reveal_strlit("gost");
            reveal_strlit("dod");
            reveal_strlit("vsitr");
            let t = builtin_schemes();
            assert forall|i: int, j: int| 0 <= i < j < t.len() implies t[i].0 != t[j].0 by {
                assert(t[i].0.len() != t[j].0.len() || t[i].0[0] != t[j].0[0] || t[i].0[1]
                    != t[j].0[1]);
            }
        }
        r
    }

    /// Every scheme with its name, in a fixed order.
    pub fn all(&self) -> (r: &Vec<(String, Scheme)>)
        ensures
            r@.len() == self@.len(),
            forall|i: int|
                0 <= i < r@.len() ==> (#[trigger] r@[i]).0@ == self@[i].0 && r@[i].1@
                    == self@[i].1,
    {
        &self.entries
    }

    /// The scheme named `key`, if there is one.
    pub fn find(&self, key: &str) -> (r: Option<&Scheme>)
        ensures
            match r {
                Some(s) => lookup(self@, key@) == Some(s@),
                None => lookup(self@, key@) is None,
            },
    {
        let wanted = key.to_owned();
        let mut i: usize = 0;
        assert(self@.skip(0) =~= self@);
        while i < self.entries.len()
            invariant
                0 <= i <= self.entries@.len(),
                wanted@ == key@,
                lookup(self@, key@) == lookup(self@.skip(i as int), key@),
            decreases self.entries@.len() - i,
        {
            assert(self@.skip(i as int).skip(1) =~= self@.skip(i + 1));
            if self.entries[i].0 == wanted {
                return Some(&self.entries[i].1);
            }
            i = i + 1;
        }
        None
    }
}

} // verus!
