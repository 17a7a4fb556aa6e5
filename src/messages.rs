use vstd::prelude::*;
use vstd::string::*;

verus! {

/// A character stripped from the end of an extracted message.
pub open spec fn is_padding(c: char) -> bool {
    c == '\n' || c == '\r' || c == '\0'
}

/// The text with every trailing newline, carriage return and NUL removed.
pub open spec fn normalized(s: Seq<char>) -> Seq<char>
    decreases s.len(),
{
    if s.len() > 0 && is_padding(s.last()) {
        normalized(s.drop_last())
    } else {
        s
    }
}

/// A normalized text never ends in padding.
pub proof fn lemma_normalized_has_no_padding(s: Seq<char>)
    ensures
        normalized(s).len() == 0 || !is_padding(normalized(s).last()),
        normalized(s).len() <= s.len(),
    decreases s.len(),
{
    if s.len() > 0 && is_padding(s.last()) {
        lemma_normalized_has_no_padding(s.drop_last());
    }
}

/// Normalizing is idempotent: a normalized text is left as it is.
pub proof fn lemma_normalize_idempotent(s: Seq<char>)
    ensures
        normalized(normalized(s)) == normalized(s),
{
    lemma_normalized_has_no_padding(s);
}

fn is_padding_char(c: char) -> (r: bool)
    ensures
        r == is_padding(c),
{
    c == '\n' || c == '\r' || c == '\0'
}

/// Strips trailing `\n`, `\r` and NUL characters; nothing else is touched.
pub fn normalize(text: &str) -> (r: String)
    ensures
        r@ == normalized(text@),
{
    let mut k: usize = text.unicode_len();
    assert(text@.subrange(0, k as int) =~= text@);
    while k > 0 && is_padding_char(text.get_char(k - 1))
        invariant
            k <= text@.len(),
            normalized(text@) == normalized(text@.subrange(0, k as int)),
        decreases k,
    {
        assert(text@.subrange(0, k as int).drop_last() =~= text@.subrange(0, k - 1));
        k = k - 1;
    }
    proof {
        if k > 0 {
            assert(text@.subrange(0, k as int).last() == text@[k - 1]);
        }
    }
    String::from_str(text.substring_char(0, k))
}

/// One raw message record read from a resource module.
pub struct Message {
    pub msg_id: u32,
    pub lang_id: u32,
    pub text: String,
}

/// The messages of one language, in the order they were read.
pub struct I18nMessages {
    pub lang_id: u32,
    pub messages: Vec<(u32, String)>,
}

/// The view of one stored message: its id and its text.
pub open spec fn entry_view(p: (u32, String)) -> (u32, Seq<char>) {
    (p.0, p.1@)
}

impl I18nMessages {
    /// The stored messages as ids and texts.
    pub open spec fn entries(&self) -> Seq<(u32, Seq<char>)> {
        self.messages@.map_values(|p: (u32, String)| entry_view(p))
    }

    pub fn new(lang_id: u32) -> (r: Self)
        ensures
            r.lang_id == lang_id,
            r.entries() == Seq::<(u32, Seq<char>)>::empty(),
    {
        let r = Self { lang_id, messages: Vec::new() };
        assert(r.entries() =~= Seq::<(u32, Seq<char>)>::empty());
        r
    }

    /// Appends the message with its text normalized; equal ids are kept apart.
    pub fn add_message(&mut self, msg: Message)
        ensures
            final(self).lang_id == old(self).lang_id,
            final(self).entries() == old(self).entries().push((msg.msg_id, normalized(msg.text@))),
    {
        let text = normalize(msg.text.as_str());
        self.messages.push((msg.msg_id, text));
        assert(self.entries() =~= old(self).entries().push((msg.msg_id, normalized(msg.text@))));
    }
}

} // verus!
