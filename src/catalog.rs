use vstd::prelude::*;
use crate::expand::{expand_env_vars, expanded, lookup, pair_view, Environment, ExpandError};
use crate::source::EventSource;

verus! {

/// `pairs` with `key` bound to `value`: in place where `key` is present, at
/// the end where it is not.
pub open spec fn upsert(pairs: Seq<(Seq<char>, Seq<char>)>, key: Seq<char>, value: Seq<char>) -> Seq<
    (Seq<char>, Seq<char>),
> {
    if exists|i: int| 0 <= i < pairs.len() && pairs[i].0 == key {
        pairs.update(choose|i: int| 0 <= i < pairs.len() && pairs[i].0 == key, (key, value))
    } else {
        pairs.push((key, value))
    }
}

/// `sources` with `source` added under `path`, unless `path` is there already.
pub open spec fn keep_first(sources: Seq<(Seq<char>, EventSource)>, path: Seq<char>, source: EventSource) -> Seq<
    (Seq<char>, EventSource),
> {
    if exists|i: int| 0 <= i < sources.len() && sources[i].0 == path {
        sources
    } else {
        sources.push((path, source))
    }
}

/// The names of a list of pairs are pairwise distinct.
pub open spec fn keys_distinct<V>(pairs: Seq<(Seq<char>, V)>) -> bool {
    forall|i: int, j: int|
        0 <= i < pairs.len() && 0 <= j < pairs.len() && i != j ==> #[trigger] pairs[i].0
            != #[trigger] pairs[j].0
}

/// What adding `source` does to a catalog viewed as its filenames and its
/// sources; the error is a variable name that the environment does not bind.
pub open spec fn add_step(
    filenames: Seq<(Seq<char>, Seq<char>)>,
    sources: Seq<(Seq<char>, EventSource)>,
    source: EventSource,
    env: Seq<(Seq<char>, Seq<char>)>,
) -> Result<(Seq<(Seq<char>, Seq<char>)>, Seq<(Seq<char>, EventSource)>), Seq<char>> {
    match source.event_message_file {
        None => Ok((filenames, sources)),
        Some(f) => match expanded(f@, env) {
            Err(n) => Err(n),
            Ok(p) => Ok((upsert(filenames, source.name@, p), keep_first(sources, p, source))),
        },
    }
}

/// The catalog: for each source name the expanded path of its event message
/// file, and for each such path the first source that named it.
pub struct EventSources {
    pub filenames: Vec<(String, String)>,
    pub sources: Vec<(String, EventSource)>,
}

pub open spec fn source_entry_view(e: (String, EventSource)) -> (Seq<char>, EventSource) {
    (e.0@, e.1)
}

impl EventSources {
    pub open spec fn filename_view(&self) -> Seq<(Seq<char>, Seq<char>)> {
        self.filenames@.map_values(|p: (String, String)| pair_view(p))
    }

    pub open spec fn source_view(&self) -> Seq<(Seq<char>, EventSource)> {
        self.sources@.map_values(|e: (String, EventSource)| source_entry_view(e))
    }

    /// No name and no path appears twice.
    pub open spec fn wf(&self) -> bool {
        keys_distinct(self.filename_view()) && keys_distinct(self.source_view())
    }

    pub fn new() -> (r: Self)
        ensures
            r.wf(),
            r.filename_view() == Seq::<(Seq<char>, Seq<char>)>::empty(),
            r.source_view() == Seq::<(Seq<char>, EventSource)>::empty(),
    {
        let r = EventSources { filenames: Vec::new(), sources: Vec::new() };
        assert(r.filename_view() =~= Seq::<(Seq<char>, Seq<char>)>::empty());
        assert(r.source_view() =~= Seq::<(Seq<char>, EventSource)>::empty());
        r
    }

    /// Whether some source is kept under the path `filename`.
    pub fn has_filename(&self, filename: &str) -> (r: bool)
        ensures
            r == exists|i: int| 0 <= i < self.sources@.len() && self.source_view()[i].0 == filename@,
    {
        let key = String::from_str(filename);
        let mut j: usize = 0;
        while j < self.sources.len()
            invariant
                j <= self.sources@.len(),
                key@ == filename@,
                forall|i: int| 0 <= i < j ==> self.source_view()[i].0 != filename@,
            decreases self.sources@.len() - j,
        {
            if self.sources[j].0 == key {
                assert(self.source_view()[j as int].0 == filename@);
                return true;
            }
            j = j + 1;
        }
        false
    }

    /// The position of the entry named `name` in `filenames`, if any.
    fn filename_position(&self, name: &String) -> (r: Option<usize>)
        ensures
            match r {
                Some(j) => j < self.filenames@.len() && self.filename_view()[j as int].0 == name@,
                None => forall|i: int|
                    0 <= i < self.filenames@.len() ==> self.filename_view()[i].0 != name@,
            },
    {
        let mut j: usize = 0;
        while j < self.filenames.len()
            invariant
                j <= self.filenames@.len(),
                forall|i: int| 0 <= i < j ==> self.filename_view()[i].0 != name@,
            decreases self.filenames@.len() - j,
        {
            if self.filenames[j].0 == *name {
                return Some(j);
            }
            j = j + 1;
        }
        None
    }

    /// Records the expanded event message file of `source` under its name, and
    /// keeps `source` under that path unless an earlier source holds it. A
    /// source without an event message file leaves the catalog as it is.
    pub fn add_source(&mut self, source: EventSource, env: &Environment) -> (r: Result<(), ExpandError>)
        requires
            old(self).wf(),
        ensures
            final(self).wf(),
            match add_step(old(self).filename_view(), old(self).source_view(), source, env.view()) {
                Ok(c) => r is Ok && final(self).filename_view() == c.0 && final(self).source_view()
                    == c.1,
                Err(n) => r is Err && r->Err_0.name@ == n && *final(self) == *old(self),
            },
    {
        let ghost src = source;
        match &source.event_message_file {
            None => {
                return Ok(());
            },
            Some(f) => {
                let filename = expand_env_vars(f.as_str(), env)?;
                let ghost p = filename@;
                let ghost fv = self.filename_view();
                let ghost sv = self.source_view();
                let name = source.name.clone();
                let pos = self.filename_position(&name);
                match pos {
                    Some(j) => {
                        self.filenames.set(j, (name, filename.clone()));
                        proof {
                            let c = choose|i: int| 0 <= i < fv.len() && fv[i].0 == src.name@;
                            assert(c == j);
                            assert(self.filename_view() =~= upsert(fv, src.name@, p));
                        }
                    },
                    None => {
                        self.filenames.push((name, filename.clone()));
                        assert(self.filename_view() =~= upsert(fv, src.name@, p));
                    },
                }
                if !self.has_filename(filename.as_str()) {
                    assert(self.source_view() == sv);
                    assert(!(exists|i: int| 0 <= i < sv.len() && sv[i].0 == p));
                    self.sources.push((filename, source));
                    assert(self.source_view().last() == (p, src));
                    assert(self.source_view() =~= keep_first(sv, p, src));
                } else {
                    assert(exists|i: int| 0 <= i < sv.len() && sv[i].0 == p) by {
                        let i = choose|i: int|
                            0 <= i < self.sources@.len() && self.source_view()[i].0 == filename@;
                        assert(sv[i].0 == p);
                    }
                    assert(self.source_view() =~= keep_first(sv, p, src));
                }
                Ok(())
            },
        }
    }
}

/// The first of two sources that resolve to the same module path is the one
/// kept for that path, while both names are recorded with the path.
pub proof fn lemma_first_source_kept(
    a: EventSource,
    b: EventSource,
    env: Seq<(Seq<char>, Seq<char>)>,
    path: Seq<char>,
)
    requires
        a.event_message_file is Some,
        b.event_message_file is Some,
        expanded(a.event_message_file->0@, env) == Ok::<Seq<char>, Seq<char>>(path),
        expanded(b.event_message_file->0@, env) == Ok::<Seq<char>, Seq<char>>(path),
    ensures
        ({
            let first = add_step(Seq::empty(), Seq::empty(), a, env);
            let second = add_step(first->Ok_0.0, first->Ok_0.1, b, env);
            &&& first is Ok
            &&& second is Ok
            &&& second->Ok_0.1 == seq![(path, a)]
            &&& lookup(second->Ok_0.0, a.name@) == Some(path)
            &&& lookup(second->Ok_0.0, b.name@) == Some(path)
        }),
{
    let first = add_step(Seq::empty(), Seq::empty(), a, env);
    let f1 = first->Ok_0.0;
    let s1 = first->Ok_0.1;
    assert(f1 =~= seq![(a.name@, path)]);
    assert(s1 =~= seq![(path, a)]);
    assert(s1[0].0 == path);
    let second = add_step(f1, s1, b, env);
    let f2 = second->Ok_0.0;
    assert(second->Ok_0.1 == s1);
    if a.name@ == b.name@ {
        assert(f1[0].0 == b.name@);
        assert(f2 =~= seq![(a.name@, path)]);
        assert(f2[0].0 == a.name@);
        assert(lookup(f2, a.name@) == Some(path));
    } else {
        assert(f2 =~= seq![(a.name@, path), (b.name@, path)]);
        assert(f2[0].0 == a.name@);
        assert(lookup(f2, a.name@) == Some(path));
        assert(f2.drop_first() =~= seq![(b.name@, path)]);
        assert(f2.drop_first()[0].0 == b.name@);
        assert(lookup(f2.drop_first(), b.name@) == Some(path));
        assert(lookup(f2, b.name@) == Some(path));
    }
}

} // verus!
