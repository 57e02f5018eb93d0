//! The descriptor registry: bind identifiers mapped to the socket
//! descriptors that this process owns.
use vstd::prelude::*;
use vstd::utf8::*;
use crate::RawFd;
use crate::codec::{
    decoded_names, deserialize_vec_string, is_wire_name, lemma_decodes_iff_utf8, lemma_round_trip, serialize_vec_string,
    texts, wire_bytes,
};

verus! {

broadcast use encode_utf8_decode_utf8, encode_utf8_valid_utf8;

/// The map built by inserting `ps` into `m` in order; a later pair for the
/// same key replaces an earlier one.
pub open spec fn insert_all(m: Map<Seq<char>, RawFd>, ps: Seq<(Seq<char>, RawFd)>) -> Map<
    Seq<char>,
    RawFd,
>
    decreases ps.len(),
{
    if ps.len() == 0 {
        m
    } else {
        insert_all(m, ps.drop_last()).insert(ps.last().0, ps.last().1)
    }
}

/// Names and descriptors paired up by position.
pub open spec fn zip_wire(names: Seq<Seq<char>>, fds: Seq<RawFd>) -> Seq<(Seq<char>, RawFd)> {
    Seq::new(names.len(), |i: int| (names[i], fds[i]))
}

/// No key occurs twice.
pub open spec fn keys_unique(ps: Seq<(Seq<char>, RawFd)>) -> bool {
    forall|i: int, j: int| 0 <= i < j < ps.len() ==> (#[trigger] ps[i]).0 != (#[trigger] ps[j]).0
}

proof fn lemma_insert_all_lookup(m: Map<Seq<char>, RawFd>, ps: Seq<(Seq<char>, RawFd)>, k: Seq<char>)
    requires
        keys_unique(ps),
    ensures
        (exists|i: int| 0 <= i < ps.len() && (#[trigger] ps[i]).0 == k) ==> {
            &&& insert_all(m, ps).contains_key(k)
            &&& forall|i: int|
                0 <= i < ps.len() && (#[trigger] ps[i]).0 == k ==> insert_all(m, ps)[k] == ps[i].1
        },
        !(exists|i: int| 0 <= i < ps.len() && (#[trigger] ps[i]).0 == k) ==> insert_all(m, ps).contains_key(k)
            == m.contains_key(k) && (m.contains_key(k) ==> insert_all(m, ps)[k] == m[k]),
    decreases ps.len(),
{
    if ps.len() > 0 {
        let init = ps.drop_last();
        assert(keys_unique(init));
        lemma_insert_all_lookup(m, init, k);
        if ps.last().0 != k {
            if exists|i: int| 0 <= i < ps.len() && (#[trigger] ps[i]).0 == k {
                let i = choose|i: int| 0 <= i < ps.len() && (#[trigger] ps[i]).0 == k;
                assert(init[i].0 == k);
            }
        } else {
            assert(ps[ps.len() - 1].0 == k);
        }
    }
}

proof fn lemma_insert_all_update(
    m: Map<Seq<char>, RawFd>,
    ps: Seq<(Seq<char>, RawFd)>,
    i: int,
    v: RawFd,
)
    requires
        keys_unique(ps),
        0 <= i < ps.len(),
    ensures
        insert_all(m, ps.update(i, (ps[i].0, v))) == insert_all(m, ps).insert(ps[i].0, v),
    decreases ps.len(),
{
    let qs = ps.update(i, (ps[i].0, v));
    if i == ps.len() - 1 {
        assert(qs.drop_last() =~= ps.drop_last());
        assert(insert_all(m, qs) =~= insert_all(m, ps).insert(ps[i].0, v));
    } else {
        assert(qs.drop_last() =~= ps.drop_last().update(i, (ps[i].0, v)));
        assert(keys_unique(ps.drop_last()));
        lemma_insert_all_update(m, ps.drop_last(), i, v);
        assert(ps.last().0 != ps[i].0);
        assert(insert_all(m, qs) =~= insert_all(m, ps).insert(ps[i].0, v));
    }
}

/// Whether two strings hold the same characters, compared by their bytes.
fn same_text(a: &str, b: &str) -> (r: bool)
    ensures
        r == (a@ == b@),
{
    let x = a.as_bytes();
    let y = b.as_bytes();
    proof {
        assert(x@ == encode_utf8(a@));
        assert(y@ == encode_utf8(b@));
    }
    if x.len() != y.len() {
        return false;
    }
    let mut i: usize = 0;
    while i < x.len()
        invariant
            0 <= i <= x@.len(),
            x@.len() == y@.len(),
            x@ == encode_utf8(a@),
            y@ == encode_utf8(b@),
            forall|k: int| 0 <= k < i ==> x@[k] == y@[k],
        decreases x@.len() - i,
    {
        if x[i] != y[i] {
            return false;
        }
        i += 1;
    }
    proof {
        assert(x@ =~= y@);
        assert(decode_utf8(encode_utf8(a@)) == decode_utf8(encode_utf8(b@)));
    }
    true
}

/// The bytes of a handoff message that are set aside for names.
pub const NAME_CAPACITY: usize = 2048;

/// The most descriptors that one handoff message carries.
pub const MAX_FDS: usize = 32;

/// Why a received handoff message could not be loaded.
#[derive(Debug, PartialEq, Eq, Structural)]
pub enum WireError {
    /// The names are not valid UTF-8.
    NotText,
    /// The message holds a different number of names than descriptors.
    CountMismatch,
}

/// The registry. Entries keep the order in which their keys first came in,
/// and no key occurs twice.
pub struct FileDescriptorsMap {
    entries: Vec<(String, RawFd)>,
}

impl View for FileDescriptorsMap {
    type V = Map<Seq<char>, RawFd>;

    open spec fn view(&self) -> Map<Seq<char>, RawFd> {
        insert_all(Map::empty(), self.pairs())
    }
}

impl FileDescriptorsMap {
    /// The entries as (name, descriptor) pairs, in order.
    pub closed spec fn pairs(&self) -> Seq<(Seq<char>, RawFd)> {
        self.entries@.map_values(|e: (String, RawFd)| (e.0@, e.1))
    }

    /// No name occurs twice among the entries.
    pub closed spec fn wf(&self) -> bool {
        keys_unique(self.pairs())
    }

    /// An empty registry.
    pub fn new() -> (r: Self)
        ensures
            r.wf(),
            r@ == Map::<Seq<char>, RawFd>::empty(),
    {
        let r = FileDescriptorsMap { entries: Vec::new() };
        assert(r.pairs() =~= Seq::<(Seq<char>, RawFd)>::empty());
        r
    }

    /// Maps `bind` to `fd`, replacing what `bind` mapped to before.
    pub fn add(&mut self, bind: String, fd: RawFd)
        requires
            old(self).wf(),
        ensures
            final(self).wf(),
            final(self)@ == old(self)@.insert(bind@, fd),
    {
        let mut i: usize = 0;
        while i < self.entries.len()
            invariant
                0 <= i <= self.entries@.len(),
                self.wf(),
                self.pairs() == old(self).pairs(),
                forall|k: int| 0 <= k < i ==> (#[trigger] self.pairs()[k]).0 != bind@,
            decreases self.entries@.len() - i,
        {
            if same_text(self.entries[i].0.as_str(), bind.as_str()) {
                let ghost before = self.pairs();
                self.entries[i] = (bind, fd);
                proof {
                    assert(self.pairs() =~= before.update(i as int, (before[i as int].0, fd)));
                    lemma_insert_all_update(Map::empty(), before, i as int, fd);
                    assert(before[i as int].0 == bind@);
                }
                return;
            }
            i += 1;
        }
        let ghost before = self.pairs();
        self.entries.push((bind, fd));
        proof {
            assert(self.pairs() =~= before.push((bind@, fd)));
            assert(self.pairs().drop_last() =~= before);
            assert(self.pairs().last() == (bind@, fd));
            assert(keys_unique(self.pairs()));
        }
    }

    /// The descriptor that `bind` maps to, if any.
    pub fn get(&self, bind: &str) -> (r: Option<&RawFd>)
        requires
            self.wf(),
        ensures
            r is Some <==> self@.contains_key(bind@),
            r matches Some(v) ==> *v == self@[bind@],
    {
        let mut i: usize = 0;
        while i < self.entries.len()
            invariant
                0 <= i <= self.entries@.len(),
                self.wf(),
                forall|k: int| 0 <= k < i ==> (#[trigger] self.pairs()[k]).0 != bind@,
            decreases self.entries@.len() - i,
        {
            if same_text(self.entries[i].0.as_str(), bind) {
                proof {
                    lemma_insert_all_lookup(Map::empty(), self.pairs(), bind@);
                    assert(self.pairs()[i as int].0 == bind@);
                }
                return Some(&self.entries[i].1);
            }
            i += 1;
        }
        proof {
            lemma_insert_all_lookup(Map::empty(), self.pairs(), bind@);
        }
        None
    }

    /// The names in the order in which the registry hands them out.
    pub closed spec fn wire_names(&self) -> Seq<Seq<char>> {
        self.pairs().map_values(|p: (Seq<char>, RawFd)| p.0)
    }

    /// The descriptors, in the order of `wire_names`.
    pub closed spec fn wire_fds(&self) -> Seq<RawFd> {
        self.pairs().map_values(|p: (Seq<char>, RawFd)| p.1)
    }

    /// `names` and `fds` list every entry exactly once, the i-th descriptor
    /// being the one the i-th name maps to.
    pub open spec fn is_wire_form(&self, names: Seq<Seq<char>>, fds: Seq<RawFd>) -> bool {
        &&& names.len() == fds.len()
        &&& names.no_duplicates()
        &&& names.to_set() == self@.dom()
        &&& forall|i: int| 0 <= i < names.len() ==> self@[#[trigger] names[i]] == fds[i]
    }

    proof fn lemma_wire_form(&self)
        requires
            self.wf(),
        ensures
            self.is_wire_form(self.wire_names(), self.wire_fds()),
            zip_wire(self.wire_names(), self.wire_fds()) == self.pairs(),
    {
        let ps = self.pairs();
        let names = self.wire_names();
        let fds = self.wire_fds();
        assert(zip_wire(names, fds) =~= ps);
        assert forall|i: int, j: int| 0 <= i < j < names.len() implies names[i] != names[j] by {
            assert(ps[i].0 == names[i] && ps[j].0 == names[j]);
        }
        assert forall|k: Seq<char>| names.to_set().contains(k) == self@.dom().contains(k) by {
            lemma_insert_all_lookup(Map::empty(), ps, k);
            if names.contains(k) {
                let i = choose|i: int| 0 <= i < names.len() && names[i] == k;
                assert(ps[i].0 == k);
            }
            if exists|i: int| 0 <= i < ps.len() && (#[trigger] ps[i]).0 == k {
                let i = choose|i: int| 0 <= i < ps.len() && (#[trigger] ps[i]).0 == k;
                assert(names[i] == k);
            }
        }
        assert(names.to_set() =~= self@.dom());
        assert forall|i: int| 0 <= i < names.len() implies self@[#[trigger] names[i]] == fds[i] by {
            lemma_insert_all_lookup(Map::empty(), ps, names[i]);
            assert(ps[i].0 == names[i]);
        }
    }

    /// The names and the descriptors, as two sequences in the same order.
    pub fn serialize(&self) -> (r: (Vec<String>, Vec<RawFd>))
        requires
            self.wf(),
        ensures
            texts(r.0@) == self.wire_names(),
            r.1@ == self.wire_fds(),
            self.is_wire_form(texts(r.0@), r.1@),
    {
        let mut names: Vec<String> = Vec::new();
        let mut fds: Vec<RawFd> = Vec::new();
        let mut i: usize = 0;
        while i < self.entries.len()
            invariant
                0 <= i <= self.entries@.len(),
                names@.len() == i,
                self.wire_names().len() == self.entries@.len(),
                texts(names@) == self.wire_names().take(i as int),
                fds@ == self.wire_fds().take(i as int),
            decreases self.entries@.len() - i,
        {
            let e = &self.entries[i];
            names.push(e.0.clone());
            fds.push(e.1);
            proof {
                assert(texts(names@) =~= self.wire_names().take(i + 1));
                assert(fds@ =~= self.wire_fds().take(i + 1));
            }
            i += 1;
        }
        proof {
            assert(self.wire_names().take(i as int) =~= self.wire_names());
            assert(self.wire_fds().take(i as int) =~= self.wire_fds());
            self.lemma_wire_form();
        }
        (names, fds)
    }

    /// Adds the i-th name with the i-th descriptor, for each i in order.
    pub fn deserialize(&mut self, binds: Vec<String>, fds: Vec<RawFd>)
        requires
            old(self).wf(),
            binds@.len() == fds@.len(),
        ensures
            final(self).wf(),
            final(self)@ == insert_all(old(self)@, zip_wire(texts(binds@), fds@)),
    {
        let ghost ps = zip_wire(texts(binds@), fds@);
        let mut i: usize = 0;
        while i < binds.len()
            invariant
                0 <= i <= binds@.len(),
                binds@.len() == fds@.len(),
                ps == zip_wire(texts(binds@), fds@),
                self.wf(),
                self@ == insert_all(old(self)@, ps.take(i as int)),
            decreases binds@.len() - i,
        {
            self.add(binds[i].clone(), fds[i]);
            proof {
                assert(ps.take(i + 1).drop_last() =~= ps.take(i as int));
            }
            i += 1;
        }
        proof {
            assert(ps.take(i as int) =~= ps);
        }
    }

    /// The message that hands this registry to another process: the names
    /// joined by spaces, cut off at `NAME_CAPACITY` bytes, and the
    /// descriptors in the same order.
    pub fn handoff_message(&self) -> (r: (Vec<u8>, Vec<RawFd>))
        requires
            self.wf(),
        ensures
            r.0@ == wire_bytes(self.wire_names()).take(r.0@.len() as int),
            r.0@.len() == if wire_bytes(self.wire_names()).len() <= NAME_CAPACITY {
                wire_bytes(self.wire_names()).len()
            } else {
                NAME_CAPACITY as nat
            },
            r.1@ == self.wire_fds(),
            self.is_wire_form(self.wire_names(), self.wire_fds()),
    {
        let (names, fds) = self.serialize();
        let mut buf: Vec<u8> = vec![0u8; NAME_CAPACITY];
        let n = serialize_vec_string(names.as_slice(), buf.as_mut_slice());
        buf.truncate(n);
        proof {
            assert(buf@ =~= wire_bytes(self.wire_names()).take(n as int));
        }
        (buf, fds)
    }

    /// Loads a received handoff message: the names in `payload` are paired
    /// with `fds` by position and added in order. Nothing changes when the
    /// payload is not UTF-8 or the count of names differs from that of `fds`.
    pub fn load_handoff(&mut self, payload: &[u8], fds: Vec<RawFd>) -> (r: Result<(), WireError>)
        requires
            old(self).wf(),
        ensures
            final(self).wf(),
            r == Err::<(), WireError>(WireError::NotText) <==> !valid_utf8(payload@),
            match decoded_names(payload@) {
                None => r == Err::<(), WireError>(WireError::NotText) && final(self)@ == old(self)@,
                Some(ns) => if ns.len() != fds@.len() {
                    r == Err::<(), WireError>(WireError::CountMismatch) && final(self)@ == old(
                        self,
                    )@
                } else {
                    r is Ok && final(self)@ == insert_all(old(self)@, zip_wire(ns, fds@))
                },
            },
    {
        proof {
            lemma_decodes_iff_utf8(payload@);
        }
        match deserialize_vec_string(payload) {
            None => Err(WireError::NotText),
            Some(names) => {
                if names.len() != fds.len() {
                    Err(WireError::CountMismatch)
                } else {
                    self.deserialize(names, fds);
                    Ok(())
                }
            },
        }
    }
}

/// Replaying a registry's wire form into an empty registry gives back the
/// same map: the same keys, each with the same descriptor.
pub proof fn lemma_wire_round_trip(r: &FileDescriptorsMap, names: Seq<Seq<char>>, fds: Seq<RawFd>)
    requires
        r.is_wire_form(names, fds),
    ensures
        insert_all(Map::empty(), zip_wire(names, fds)) == r@,
{
    let ps = zip_wire(names, fds);
    assert(keys_unique(ps)) by {
        assert forall|i: int, j: int| 0 <= i < j < ps.len() implies (#[trigger] ps[i]).0 != (
        #[trigger] ps[j]).0 by {
            assert(ps[i].0 == names[i] && ps[j].0 == names[j]);
        }
    }
    let m = insert_all(Map::empty(), ps);
    assert forall|k: Seq<char>| m.contains_key(k) == r@.contains_key(k) by {
        lemma_insert_all_lookup(Map::empty(), ps, k);
        assert(names.to_set().contains(k) == r@.dom().contains(k));
        if names.contains(k) {
            let i = choose|i: int| 0 <= i < names.len() && names[i] == k;
            assert(ps[i].0 == k);
        }
        if exists|i: int| 0 <= i < ps.len() && (#[trigger] ps[i]).0 == k {
            let i = choose|i: int| 0 <= i < ps.len() && (#[trigger] ps[i]).0 == k;
            assert(names[i] == k);
        }
    }
    assert forall|k: Seq<char>| m.contains_key(k) implies m[k] == r@[k] by {
        lemma_insert_all_lookup(Map::empty(), ps, k);
        let i = choose|i: int| 0 <= i < ps.len() && (#[trigger] ps[i]).0 == k;
        assert(names[i] == k);
    }
    assert(m =~= r@);
}

/// A registry whose names are non-empty and free of ASCII whitespace, and
/// whose message fits in `NAME_CAPACITY` bytes, is carried whole by its
/// handoff message: loading that message into an empty registry gives back
/// the same map.
pub proof fn lemma_handoff_round_trip(r: &FileDescriptorsMap)
    requires
        r.wf(),
        forall|k: Seq<char>| r@.contains_key(k) ==> is_wire_name(k),
        wire_bytes(r.wire_names()).len() <= NAME_CAPACITY,
    ensures
        decoded_names(wire_bytes(r.wire_names())) == Some(r.wire_names()),
        r.wire_names().len() == r.wire_fds().len(),
        insert_all(Map::empty(), zip_wire(r.wire_names(), r.wire_fds())) == r@,
{
    r.lemma_wire_form();
    let names = r.wire_names();
    assert forall|k: int| 0 <= k < names.len() implies is_wire_name(#[trigger] names[k]) by {
        assert(names.to_set().contains(names[k]));
    }
    lemma_round_trip(names);
    lemma_wire_round_trip(r, names, r.wire_fds());
}

} // verus!
