use std::collections::HashMap;
use vstd::prelude::*;
use vstd::string::*;
use crate::expand::{expand_env_vars, expanded, Environment, ExpandError};
use crate::messages::{normalized, I18nMessages, Message};

verus! {

broadcast use vstd::std_specs::hash::group_hash_axioms;

/// One registered event source: its attributes and the messages read from its
/// modules, one bucket per language.
pub struct EventSource {
    pub name: String,
    pub category_count: Option<u32>,
    pub category_message_file: Option<String>,
    pub event_message_file: Option<String>,
    pub parameter_message_file: Option<String>,
    pub types_supported: Option<u32>,
    pub messages: HashMap<u32, I18nMessages>,
}

/// What came of one module path: it could not be opened, it was read to the
/// end, or reading stopped on an error.
pub enum ModuleOutcome {
    OpenFailed,
    Read(Vec<Message>),
    ReadFailed,
}

/// Reading the module at this position of the list failed midway.
pub struct ModuleReadError {
    pub module: usize,
}

/// The messages that a module outcome contributes.
pub open spec fn outcome_messages(o: ModuleOutcome) -> Seq<Message> {
    match o {
        ModuleOutcome::Read(v) => v@,
        _ => Seq::empty(),
    }
}

/// The messages of all modules that were read, in order.
pub open spec fn read_messages(mods: Seq<ModuleOutcome>) -> Seq<Message>
    decreases mods.len(),
{
    if mods.len() == 0 {
        Seq::empty()
    } else {
        read_messages(mods.drop_last()) + outcome_messages(mods.last())
    }
}

/// The entries that the messages of language `lang` add to its bucket, in order.
pub open spec fn lang_entries(msgs: Seq<Message>, lang: u32) -> Seq<(u32, Seq<char>)>
    decreases msgs.len(),
{
    if msgs.len() == 0 {
        Seq::empty()
    } else {
        let p = lang_entries(msgs.drop_last(), lang);
        if msgs.last().lang_id == lang {
            p.push((msgs.last().msg_id, normalized(msgs.last().text@)))
        } else {
            p
        }
    }
}

/// `str::split` on `;`: the pieces between separators, empty ones included.
pub open spec fn split_paths(s: Seq<char>) -> Seq<Seq<char>>
    decreases s.len(),
{
    if s.len() == 0 {
        seq![Seq::empty()]
    } else {
        let prev = split_paths(s.drop_last());
        if s.last() == ';' {
            prev.push(Seq::empty())
        } else {
            prev.update(prev.len() - 1, prev.last().push(s.last()))
        }
    }
}

proof fn lemma_split_paths_nonempty(s: Seq<char>)
    ensures
        split_paths(s).len() > 0,
    decreases s.len(),
{
    if s.len() > 0 {
        lemma_split_paths_nonempty(s.drop_last());
    }
}

/// The name of a source nested under a group: `group/sub`.
pub open spec fn nested_name(group: Seq<char>, sub: Seq<char>) -> Seq<char> {
    group + seq!['/'] + sub
}

pub fn sub_source_name(group: &str, sub: &str) -> (r: String)
    ensures
        r@ == nested_name(group@, sub@),
{
    let slash = "/";
    proof {
        reveal_strlit("/");
    }
    String::from_str(group).concat(slash).concat(sub)
}

impl EventSource {
    /// Each bucket sits under its own language and holds at least one message.
    pub open spec fn wf(&self) -> bool {
        forall|l: u32|
            #[trigger] self.messages@.contains_key(l) ==> self.messages@[l].lang_id == l
                && self.messages@[l].entries().len() > 0
    }

    /// The messages of language `l`, empty where there is no bucket.
    pub open spec fn bucket(&self, l: u32) -> Seq<(u32, Seq<char>)> {
        if self.messages@.contains_key(l) {
            self.messages@[l].entries()
        } else {
            Seq::empty()
        }
    }

    /// The two sources agree on everything but their messages.
    pub open spec fn same_attributes(&self, o: &Self) -> bool {
        &&& self.name == o.name
        &&& self.category_count == o.category_count
        &&& self.category_message_file == o.category_message_file
        &&& self.event_message_file == o.event_message_file
        &&& self.parameter_message_file == o.parameter_message_file
        &&& self.types_supported == o.types_supported
    }

    /// A source with the given attributes and no messages.
    pub fn from(
        name: String,
        category_count: Option<u32>,
        category_message_file: Option<String>,
        event_message_file: Option<String>,
        parameter_message_file: Option<String>,
        types_supported: Option<u32>,
    ) -> (r: Self)
        ensures
            r.wf(),
            r.name == name,
            r.category_count == category_count,
            r.category_message_file == category_message_file,
            r.event_message_file == event_message_file,
            r.parameter_message_file == parameter_message_file,
            r.types_supported == types_supported,
            r.messages@ == Map::<u32, I18nMessages>::empty(),
    {
        EventSource {
            name,
            category_count,
            category_message_file,
            event_message_file,
            parameter_message_file,
            types_supported,
            messages: HashMap::new(),
        }
    }

    /// Appends the message, normalized, to the bucket of its language, which
    /// is made on first use.
    pub fn add_message(&mut self, msg: Message)
        requires
            old(self).wf(),
        ensures
            final(self).wf(),
            final(self).same_attributes(old(self)),
            final(self).messages@.dom() == old(self).messages@.dom().insert(msg.lang_id),
            forall|l: u32|
                #[trigger] final(self).bucket(l) == if l == msg.lang_id {
                    old(self).bucket(l).push((msg.msg_id, normalized(msg.text@)))
                } else {
                    old(self).bucket(l)
                },
    {
        let lang = msg.lang_id;
        let removed = self.messages.remove(&lang);
        let mut bucket = match removed {
            Some(b) => b,
            None => I18nMessages::new(lang),
        };
        bucket.add_message(msg);
        self.messages.insert(lang, bucket);
        assert(self.messages@.dom() =~= old(self).messages@.dom().insert(lang));
    }

    /// Adds every message of every module that was read, in order; stops at
    /// the first module whose reading failed.
    pub fn ingest_modules(&mut self, modules: &Vec<ModuleOutcome>) -> (r: Result<(), ModuleReadError>)
        requires
            old(self).wf(),
        ensures
            final(self).wf(),
            final(self).same_attributes(old(self)),
            match r {
                Ok(()) => {
                    &&& forall|j: int| 0 <= j < modules@.len() ==> !(modules@[j] is ReadFailed)
                    &&& forall|l: u32|
                        #[trigger] final(self).bucket(l) == old(self).bucket(l) + lang_entries(
                            read_messages(modules@),
                            l,
                        )
                },
                Err(e) => {
                    &&& e.module < modules@.len()
                    &&& modules@[e.module as int] is ReadFailed
                    &&& forall|j: int| 0 <= j < e.module ==> !(modules@[j] is ReadFailed)
                },
            },
    {
        let mut k: usize = 0;
        assert(modules@.subrange(0, 0) =~= Seq::<ModuleOutcome>::empty());
        proof {
            assert forall|l: u32| #[trigger] self.bucket(l) == old(self).bucket(l) + lang_entries(
                read_messages(modules@.subrange(0, 0)),
                l,
            ) by {
                assert(old(self).bucket(l) + Seq::empty() =~= old(self).bucket(l));
            }
        }
        while k < modules.len()
            invariant
                k <= modules@.len(),
                self.wf(),
                self.same_attributes(old(self)),
                forall|j: int| 0 <= j < k ==> !(modules@[j] is ReadFailed),
                forall|l: u32|
                    #[trigger] self.bucket(l) == old(self).bucket(l) + lang_entries(
                        read_messages(modules@.subrange(0, k as int)),
                        l,
                    ),
            decreases modules@.len() - k,
        {
            let ghost before = read_messages(modules@.subrange(0, k as int));
            assert(modules@.subrange(0, k + 1).drop_last() =~= modules@.subrange(0, k as int));
            match &modules[k] {
                ModuleOutcome::OpenFailed => {
                    assert(read_messages(modules@.subrange(0, k + 1)) =~= before);
                },
                ModuleOutcome::ReadFailed => {
                    return Err(ModuleReadError { module: k });
                },
                ModuleOutcome::Read(v) => {
                    let mut t: usize = 0;
                    assert(before + v@.subrange(0, 0) =~= before);
                    while t < v.len()
                        invariant
                            t <= v@.len(),
                            self.wf(),
                            self.same_attributes(old(self)),
                            forall|l: u32|
                                #[trigger] self.bucket(l) == old(self).bucket(l) + lang_entries(
                                    before + v@.subrange(0, t as int),
                                    l,
                                ),
                        decreases v@.len() - t,
                    {
                        let m = Message {
                            msg_id: v[t].msg_id,
                            lang_id: v[t].lang_id,
                            text: v[t].text.clone(),
                        };
                        let ghost pre = *self;
                        self.add_message(m);
                        proof {
                            let seen = before + v@.subrange(0, t as int);
                            let next = before + v@.subrange(0, t + 1);
                            assert(next.drop_last() =~= seen);
                            assert(next.last() == v@[t as int]);
                            assert forall|l: u32| #[trigger] self.bucket(l) == old(self).bucket(l)
                                + lang_entries(next, l) by {
                                if l == m.lang_id {
                                    assert(old(self).bucket(l) + lang_entries(next, l) =~= (
                                    old(self).bucket(l) + lang_entries(seen, l)).push(
                                        (m.msg_id, normalized(m.text@)),
                                    ));
                                } else {
                                    assert(pre.bucket(l) == self.bucket(l));
                                }
                            }
                        }
                        t = t + 1;
                    }
                    assert(v@.subrange(0, v@.len() as int) =~= v@);
                    assert(outcome_messages(modules@[k as int]) == v@);
                },
            }
            k = k + 1;
        }
        assert(modules@.subrange(0, k as int) =~= modules@);
        Ok(())
    }

    /// The module paths of the source: its event message file expanded and
    /// split on `;`; none where the source names no such file.
    pub fn module_paths(&self, env: &Environment) -> (r: Result<Vec<String>, ExpandError>)
        ensures
            match self.event_message_file {
                None => r is Ok && r->Ok_0@.len() == 0,
                Some(f) => match expanded(f@, env.view()) {
                    Ok(t) => r is Ok && r->Ok_0@.map_values(|p: String| p@) == split_paths(t),
                    Err(n) => r is Err && r->Err_0.name@ == n,
                },
            },
    {
        match &self.event_message_file {
            None => Ok(Vec::new()),
            Some(f) => {
                let t = expand_env_vars(f.as_str(), env)?;
                Ok(split_module_paths(t.as_str()))
            },
        }
    }
}

/// Splits a list of module paths on `;`.
pub fn split_module_paths(s: &str) -> (r: Vec<String>)
    ensures
        r@.map_values(|p: String| p@) == split_paths(s@),
{
    let n: usize = s.unicode_len();
    let mut parts: Vec<String> = Vec::new();
    let mut start: usize = 0;
    let mut i: usize = 0;
    assert(s@.subrange(0, 0) =~= Seq::<char>::empty());
    assert(parts@.map_values(|p: String| p@).push(s@.subrange(0, 0)) =~= seq![Seq::<char>::empty()]);
    while i < n
        invariant
            n == s@.len(),
            start <= i <= n,
            split_paths(s@.subrange(0, i as int)) == parts@.map_values(|p: String| p@).push(
                s@.subrange(start as int, i as int),
            ),
        decreases n - i,
    {
        let ghost pv = parts@.map_values(|p: String| p@);
        assert(s@.subrange(0, i + 1).drop_last() =~= s@.subrange(0, i as int));
        assert(s@.subrange(0, i + 1).last() == s@[i as int]);
        let c = s.get_char(i);
        if c == ';' {
            let piece = String::from_str(s.substring_char(start, i));
            parts.push(piece);
            assert(parts@.map_values(|p: String| p@) =~= pv.push(s@.subrange(start as int, i as int)));
            start = i + 1;
            assert(s@.subrange(start as int, i + 1) =~= Seq::<char>::empty());
        } else {
            assert(s@.subrange(start as int, i as int).push(c) =~= s@.subrange(start as int, i + 1));
            assert(pv.push(s@.subrange(start as int, i as int)).update(
                pv.len() as int,
                s@.subrange(start as int, i + 1),
            ) =~= pv.push(s@.subrange(start as int, i + 1)));
        }
        i = i + 1;
    }
    let last = String::from_str(s.substring_char(start, n));
    let ghost pv = parts@.map_values(|p: String| p@);
    parts.push(last);
    assert(s@.subrange(0, n as int) =~= s@);
    assert(parts@.map_values(|p: String| p@) =~= pv.push(s@.subrange(start as int, n as int)));
    parts
}

} // verus!
