//! The identifier index: connected displays keyed by hardware identifier.

use vstd::prelude::*;

verus! {

/// A connected display: its hardware identifier (lowercase hex) and the
/// name the display server gives it now.
#[derive(Clone, Debug)]
pub struct LiveDisplay {
    pub identifier: String,
    pub system_name: String,
}

/// A display as the display server lists it: its name and, where it has
/// one, the raw identifier block.
#[derive(Clone, Debug)]
pub struct RawOutput {
    pub name: String,
    pub edid: Option<Vec<u8>>,
}

/// Why an index could not be built.
#[derive(Clone, Copy, Debug, PartialEq, Eq, Structural)]
pub enum IndexError {
    /// Two connected displays report the same hardware identifier.
    DuplicateIdentifier,
}

/// No two entries share their first component.
pub open spec fn unique_keys<V>(entries: Seq<(Seq<char>, V)>) -> bool {
    forall|i: int, j: int|
        0 <= i < j < entries.len() ==> #[trigger] entries[i].0 != #[trigger] entries[j].0
}

/// The (identifier, system name) pair of a display.
pub open spec fn display_entry(d: LiveDisplay) -> (Seq<char>, Seq<char>) {
    (d.identifier@, d.system_name@)
}

/// The lowercase hexadecimal digit for `n < 16`.
pub open spec fn hex_digit(n: u8) -> char {
    if n < 10 {
        (('0' as u8) + n) as char
    } else {
        (('a' as u8) + n - 10) as char
    }
}

/// Two lowercase hex digits per byte, high nibble first.
pub open spec fn hex_of(b: Seq<u8>) -> Seq<char> {
    Seq::new(
        2 * b.len(),
        |i: int|
            if i % 2 == 0 {
                hex_digit(b[i / 2] / 16)
            } else {
                hex_digit(b[i / 2] % 16)
            },
    )
}

/// The entries that the displays carrying an identifier block give, in order.
pub open spec fn raw_entries(outputs: Seq<RawOutput>) -> Seq<(Seq<char>, Seq<char>)>
    decreases outputs.len(),
{
    if outputs.len() == 0 {
        Seq::empty()
    } else {
        let pre = raw_entries(outputs.drop_last());
        match outputs.last().edid {
            Some(b) => pre.push((hex_of(b@), outputs.last().name@)),
            None => pre,
        }
    }
}

/// Relies on hex::encode: two lowercase hex digits per byte, high nibble first.
#[verifier::external_body]
pub(crate) fn to_hex(b: &Vec<u8>) -> (r: String)
    ensures
        r@ == hex_of(b@),
{
    hex::encode(b)
}

/// Connected displays by hardware identifier; no identifier occurs twice.
#[derive(Clone, Debug)]
pub struct IdentifierIndex {
    displays: Vec<LiveDisplay>,
}

impl View for IdentifierIndex {
    type V = Seq<(Seq<char>, Seq<char>)>;

    /// The (identifier, system name) entries, in the order they were added.
    closed spec fn view(&self) -> Seq<(Seq<char>, Seq<char>)> {
        self.displays@.map_values(|d: LiveDisplay| display_entry(d))
    }
}

impl IdentifierIndex {
    pub open spec fn wf(&self) -> bool {
        unique_keys(self@)
    }

    /// An index with no display.
    pub fn new() -> (r: IdentifierIndex)
        ensures
            r.wf(),
            r@ == Seq::<(Seq<char>, Seq<char>)>::empty(),
    {
        let r = IdentifierIndex { displays: Vec::new() };
        assert(r@ =~= Seq::<(Seq<char>, Seq<char>)>::empty());
        r
    }

    /// The position of the display with identifier `id`, if it is connected.
    fn position(&self, id: &String) -> (r: Option<usize>)
        ensures
            r is Some ==> r.unwrap() < self@.len() && self@[r.unwrap() as int].0 == id@,
            r is None ==> forall|i: int| 0 <= i < self@.len() ==> self@[i].0 != id@,
    {
        let mut i: usize = 0;
        while i < self.displays.len()
            invariant
                i <= self.displays.len(),
                self@.len() == self.displays@.len(),
                forall|j: int| 0 <= j < i ==> self@[j].0 != id@,
            decreases self.displays.len() - i,
        {
            if self.displays[i].identifier == *id {
                return Some(i);
            }
            i = i + 1;
        }
        None
    }

    /// Adds a display; fails if its identifier is already in the index, and
    /// then leaves the index as it was.
    pub fn insert(&mut self, d: LiveDisplay) -> (r: Result<(), IndexError>)
        requires
            old(self).wf(),
        ensures
            final(self).wf(),
            r is Err <==> exists|i: int| 0 <= i < old(self)@.len() && old(self)@[i].0 == d.identifier@,
            r is Ok ==> final(self)@ == old(self)@.push(display_entry(d)),
            r is Err ==> final(self)@ == old(self)@,
    {
        if self.position(&d.identifier).is_some() {
            return Err(IndexError::DuplicateIdentifier);
        }
        self.displays.push(d);
        assert(self@ =~= old(self)@.push(display_entry(d)));
        Ok(())
    }

    /// Indexes the displays by identifier; fails if two of them share one.
    pub fn build(displays: Vec<LiveDisplay>) -> (r: Result<IdentifierIndex, IndexError>)
        ensures
            r is Ok <==> unique_keys(displays@.map_values(|d: LiveDisplay| display_entry(d))),
            r is Ok ==> r.unwrap().wf() && r.unwrap()@ == displays@.map_values(|d: LiveDisplay| display_entry(d)),
    {
        let ghost all = displays@.map_values(|d: LiveDisplay| display_entry(d));
        let mut ix = IdentifierIndex::new();
        let mut i: usize = 0;
        while i < displays.len()
            invariant
                i <= displays.len(),
                all == displays@.map_values(|d: LiveDisplay| display_entry(d)),
                ix.wf(),
                ix@ == all.take(i as int),
            decreases displays.len() - i,
        {
            let d = LiveDisplay {
                identifier: displays[i].identifier.clone(),
                system_name: displays[i].system_name.clone(),
            };
            assert(display_entry(d) == all[i as int]);
            if ix.insert(d).is_err() {
                proof {
                    let k = choose|k: int| 0 <= k < ix@.len() && ix@[k].0 == display_entry(displays@[i as int]).0;
                    assert(all[k].0 == all[i as int].0);
                }
                return Err(IndexError::DuplicateIdentifier);
            }
            assert(all.take(i + 1) =~= all.take(i as int).push(all[i as int]));
            i = i + 1;
        }
        assert(all.take(i as int) =~= all);
        Ok(ix)
    }

    /// The system name of the display with identifier `id`, if connected.
    pub fn system_name_of(&self, id: &String) -> (r: Option<&String>)
        requires
            self.wf(),
        ensures
            r is Some <==> exists|i: int| 0 <= i < self@.len() && self@[i].0 == id@,
            r is Some ==> forall|i: int| 0 <= i < self@.len() && self@[i].0 == id@ ==> self@[i].1 == r.unwrap()@,
    {
        match self.position(id) {
            Some(i) => {
                proof {
                    assert forall|j: int| 0 <= j < self@.len() && self@[j].0 == id@ implies j == i by {
                        if j < i { assert(self@[j].0 != self@[i as int].0); }
                        if j > i { assert(self@[i as int].0 != self@[j].0); }
                    }
                }
                Some(&self.displays[i].system_name)
            },
            None => None,
        }
    }

    /// The identifiers of the connected displays, in index order.
    pub fn identifiers(&self) -> (r: Vec<String>)
        ensures
            r@.len() == self@.len(),
            forall|j: int| 0 <= j < r@.len() ==> #[trigger] r@[j]@ == self@[j].0,
    {
        let mut r: Vec<String> = Vec::new();
        let mut i: usize = 0;
        while i < self.displays.len()
            invariant
                i <= self.displays.len(),
                self@.len() == self.displays@.len(),
                r@.len() == i,
                forall|j: int| 0 <= j < i ==> #[trigger] r@[j]@ == self@[j].0,
            decreases self.displays.len() - i,
        {
            r.push(self.displays[i].identifier.clone());
            i = i + 1;
        }
        r
    }
}

/// Indexes the displays that carry an identifier block by the block's hex
/// encoding; the others are left out. Fails if two blocks are equal.
pub fn index_outputs_by_id(outputs: Vec<RawOutput>) -> (r: Result<IdentifierIndex, IndexError>)
    ensures
        r is Ok <==> unique_keys(raw_entries(outputs@)),
        r is Ok ==> r.unwrap().wf() && r.unwrap()@ == raw_entries(outputs@),
{
    let mut ix = IdentifierIndex::new();
    let mut i: usize = 0;
    while i < outputs.len()
        invariant
            i <= outputs.len(),
            ix.wf(),
            ix@ == raw_entries(outputs@.take(i as int)),
        decreases outputs.len() - i,
    {
        assert(outputs@.take(i + 1).drop_last() =~= outputs@.take(i as int));
        match &outputs[i].edid {
            Some(b) => {
                let d = LiveDisplay { identifier: to_hex(b), system_name: outputs[i].name.clone() };
                if ix.insert(d).is_err() {
                    proof {
                        let all = raw_entries(outputs@);
                        let k = choose|k: int| 0 <= k < ix@.len() && ix@[k].0 == display_entry(d).0;
                        let cur = raw_entries(outputs@.take(i + 1));
                        lemma_raw_entries_prefix(outputs@, i + 1);
                        assert(cur == ix@.push(display_entry(d)));
                        assert(all.take(cur.len() as int) == cur);
                        assert(all[k] == cur[k]);
                        assert(all[ix@.len() as int] == cur[ix@.len() as int]);
                        assert(all[k].0 == all[ix@.len() as int].0);
                    }
                    return Err(IndexError::DuplicateIdentifier);
                }
            },
            None => {},
        }
        i = i + 1;
    }
    assert(outputs@.take(i as int) =~= outputs@);
    Ok(ix)
}

/// The entries of a prefix are a prefix of the entries.
proof fn lemma_raw_entries_prefix(outputs: Seq<RawOutput>, n: int)
    requires
        0 <= n <= outputs.len(),
    ensures
        raw_entries(outputs.take(n)).len() <= raw_entries(outputs).len(),
        raw_entries(outputs.take(n)) == raw_entries(outputs).take(raw_entries(outputs.take(n)).len() as int),
    decreases outputs.len() - n,
{
    if n < outputs.len() {
        lemma_raw_entries_prefix(outputs, n + 1);
        assert(outputs.take(n + 1).drop_last() =~= outputs.take(n));
        let a = raw_entries(outputs.take(n));
        let b = raw_entries(outputs.take(n + 1));
        let all = raw_entries(outputs);
        assert(a =~= all.take(a.len() as int));
    } else {
        assert(outputs.take(n) =~= outputs);
        assert(raw_entries(outputs).take(raw_entries(outputs).len() as int) =~= raw_entries(outputs));
    }
}

} // verus!
