//! Video core mailbox messages.
//!
//! A message is a buffer of 32-bit words: the size of the buffer in bytes,
//! a code that tells a request from a response, the properties one after the
//! other, and an end tag. A property is its tag, the size in bytes of the
//! buffer for its payload, the size of the response, and the payload in
//! whole words.

use vstd::prelude::*;

verus! {

/// Request code.
pub const REQUEST_CODE: u32 = 0x0;

/// Success code.
pub const SUCCESS_CODE: u32 = 0x80000000;

/// End tag.
pub const END_TAG: u32 = 0x0;

/// Message buffer size in bytes.
pub const BUF_SIZE: usize = 0x100;

/// Message buffer size in words.
pub const BUF_WORDS: usize = 0x40;

/// Index of the first word after the header of a message.
pub const FIRST_TAG: usize = 2;

/// Mailbox interface driver.
#[derive(Debug)]
pub struct Mailbox {
    /// Private zero-sized type to prevent public initialization.
    _data: (),
}

/// Message buffer.
pub struct Message {
    /// The buffer as words.
    words: Vec<u32>,
}

/// Message property.
pub struct Property {
    /// The property as it stands in a message: tag, buffer size, response
    /// size, payload.
    words: Vec<u32>,
}

/// The number of words that a payload buffer of `size` bytes takes.
pub open spec fn payload_words(size: int) -> int {
    (size + 3) / 4
}

/// Index of the word after the property that starts at word `at`.
pub open spec fn after(words: Seq<u32>, at: int) -> int {
    if 0 <= at + 1 < words.len() {
        at + 3 + payload_words(words[at + 1] as int)
    } else {
        at + 3
    }
}

/// Whether the properties from word `at` on are followed by an end tag
/// inside the buffer.
pub open spec fn ended(words: Seq<u32>, at: int) -> bool
    decreases words.len() - at,
{
    if at < 0 || at >= words.len() {
        false
    } else if words[at] == END_TAG {
        true
    } else if after(words, at) >= words.len() {
        false
    } else {
        ended(words, after(words, at))
    }
}

/// Index of the end tag that follows the properties from word `at` on.
pub open spec fn end_of(words: Seq<u32>, at: int) -> int
    decreases words.len() - at,
{
    if at < 0 || at >= words.len() || words[at] == END_TAG {
        at
    } else if after(words, at) >= words.len() {
        after(words, at)
    } else {
        end_of(words, after(words, at))
    }
}

/// The properties from word `at` on, each as the words that it is made of.
pub open spec fn properties(words: Seq<u32>, at: int) -> Seq<Seq<u32>>
    decreases words.len() - at,
{
    if at < 0 || at >= words.len() || words[at] == END_TAG {
        Seq::<Seq<u32>>::empty()
    } else if after(words, at) >= words.len() {
        seq![words.subrange(at, words.len() as int)]
    } else {
        seq![words.subrange(at, after(words, at))] + properties(words, after(words, at))
    }
}

/// Whether a property with the given tag stands among those from word `at`
/// on.
pub open spec fn has_tag(words: Seq<u32>, at: int, tag: u32) -> bool
    decreases words.len() - at,
{
    if at < 0 || at >= words.len() || words[at] == END_TAG {
        false
    } else if after(words, at) >= words.len() {
        words[at] == tag
    } else {
        words[at] == tag || has_tag(words, after(words, at), tag)
    }
}

/// Whether the words are a property as it stands in a message: a header of
/// three words and a payload of as many words as its buffer size asks for.
pub open spec fn is_property(words: Seq<u32>) -> bool {
    words.len() >= 3 && words.len() == 3 + payload_words(words[1] as int)
}

/// The end tag of a well-formed message lies at or after the word at which
/// the search for it starts, and inside the buffer.
pub proof fn lemma_end_of(words: Seq<u32>, at: int)
    requires
        ended(words, at),
    ensures
        at <= end_of(words, at) < words.len(),
        words[end_of(words, at)] == END_TAG,
    decreases words.len() - at,
{
    if words[at] != END_TAG {
        lemma_end_of(words, after(words, at));
    }
}

/// Writing a property and an end tag where the end tag of a message stands
/// adds the property to the message, unless its tag is the end tag.
#[verifier::rlimit(30)]
pub proof fn lemma_appended(before: Seq<u32>, after_it: Seq<u32>, at: int, prop: Seq<u32>)
    requires
        ended(before, at),
        is_property(prop),
        before.len() == after_it.len(),
        end_of(before, at) + prop.len() < before.len(),
        forall|i: int| 0 <= i < end_of(before, at) ==> before[i] == after_it[i],
        forall|i: int| 0 <= i < prop.len() ==> after_it[end_of(before, at) + i] == prop[i],
        after_it[end_of(before, at) + prop.len()] == END_TAG,
    ensures
        ended(after_it, at),
        properties(after_it, at) == if prop[0] == END_TAG {
            properties(before, at)
        } else {
            properties(before, at).push(prop)
        },
        end_of(after_it, at) == if prop[0] == END_TAG {
            end_of(before, at)
        } else {
            end_of(before, at) + prop.len()
        },
    decreases before.len() - at,
{
    let end = end_of(before, at);
    lemma_end_of(before, at);
    if before[at] == END_TAG {
        assert(end == at);
        assert(after_it[at] == prop[0]);
        if prop[0] != END_TAG {
            assert(after_it[at + 1] == prop[1]);
            let next = after(after_it, at);
            assert(next == at + prop.len());
            assert(after_it[next] == END_TAG);
            assert(ended(after_it, next));
            assert(end_of(after_it, next) == next);
            assert(after_it.subrange(at, next) =~= prop);
            assert(properties(after_it, next) == Seq::<Seq<u32>>::empty());
            assert(properties(after_it, at) =~= seq![prop]);
            assert(properties(before, at).push(prop) =~= seq![prop]);
        }
    } else {
        let next = after(before, at);
        assert(next < before.len());
        lemma_end_of(before, next);
        assert(after_it[at] == before[at]);
        assert(after_it[at + 1] == before[at + 1]);
        assert(after(after_it, at) == next);
        lemma_appended(before, after_it, next, prop);
        assert(after_it.subrange(at, next) =~= before.subrange(at, next));
        assert(ended(after_it, at));
        if prop[0] != END_TAG {
            assert(properties(after_it, at) =~= properties(before, at).push(prop));
        }
    }
}

impl Mailbox {
    /// Creates and initializes a new mailbox driver.
    pub fn new() -> Mailbox {
        Mailbox { _data: () }
    }
}

impl Property {
    /// The property as it stands in a message.
    pub closed spec fn view(&self) -> Seq<u32> {
        self.words@
    }

    /// Whether the property is whole: a header and a payload of the length
    /// that the header gives.
    pub open spec fn wf(&self) -> bool {
        is_property(self@)
    }

    /// Creates and initializes a new property.
    ///
    /// * `tag`: Property tag.
    /// * `payload`: Request payload, in words.
    /// * `capacity`: Number of words that the response may take.
    ///
    /// The buffer of the property has room for the longer of the two; words
    /// of it that the request does not use are zero. The response size is
    /// zero, which marks a request.
    pub fn new(tag: u32, payload: &Vec<u32>, capacity: usize) -> (prop: Property)
        requires
            payload.len() * 4 <= u32::MAX,
            capacity * 4 <= u32::MAX,
        ensures
            prop.wf(),
            prop@.len() == 3 + room(payload@.len() as int, capacity as int),
            prop@[0] == tag,
            prop@[1] == 4 * room(payload@.len() as int, capacity as int),
            prop@[2] == 0,
            forall|i: int| 3 <= i < 3 + payload@.len() ==> #[trigger] prop@[i] == payload@[i - 3],
            forall|i: int| 3 + payload@.len() <= i < prop@.len() ==> #[trigger] prop@[i] == 0,
    {
        let size: usize = if payload.len() >= capacity {
            payload.len()
        } else {
            capacity
        };
        let mut words: Vec<u32> = Vec::new();
        words.push(tag);
        words.push((size * 4) as u32);
        words.push(0);
        let mut i: usize = 0;
        while i < size
            invariant
                0 <= i <= size,
                size == room(payload@.len() as int, capacity as int),
                size * 4 <= u32::MAX,
                words@.len() == 3 + i,
                words@[0] == tag,
                words@[1] == 4 * size,
                words@[2] == 0,
                forall|k: int|
                    3 <= k < 3 + i && k < 3 + payload@.len() ==> #[trigger] words@[k] == payload@[k
                        - 3],
                forall|k: int| 3 + payload@.len() <= k < 3 + i ==> #[trigger] words@[k] == 0,
            decreases size - i,
        {
            if i < payload.len() {
                words.push(payload[i]);
            } else {
                words.push(0);
            }
            i = i + 1;
        }
        Property { words }
    }

    /// Returns this property's tag.
    pub fn tag(&self) -> (tag: u32)
        requires
            self.wf(),
        ensures
            tag == self@[0],
    {
        self.words[0]
    }

    /// Returns the words that this property is made of.
    pub fn words(&self) -> (words: &Vec<u32>)
        ensures
            words@ == self@,
    {
        &self.words
    }

    /// Hands its argument back. Lets a caller that does not bind an output
    /// name the type of the output all the same.
    pub fn nop<O>(&self, output: O) -> (res: O)
        ensures
            res == output,
    {
        output
    }
}

/// The longer of a request and the room for its response, in words.
pub open spec fn room(request: int, response: int) -> int {
    if request >= response {
        request
    } else {
        response
    }
}

impl Message {
    /// The buffer as words.
    pub closed spec fn view(&self) -> Seq<u32> {
        self.words@
    }

    /// Whether the message is whole: the buffer has its full length, and the
    /// properties in it are followed by an end tag.
    pub open spec fn wf(&self) -> bool {
        self@.len() == BUF_WORDS && ended(self@, FIRST_TAG as int)
    }

    /// The properties of the message in their order.
    pub open spec fn props(&self) -> Seq<Seq<u32>> {
        properties(self@, FIRST_TAG as int)
    }

    /// Creates and initializes a new message: a request without properties.
    pub fn new() -> (msg: Message)
        ensures
            msg.wf(),
            msg@[0] == BUF_SIZE,
            msg@[1] == REQUEST_CODE,
            msg.props() == Seq::<Seq<u32>>::empty(),
    {
        let mut words: Vec<u32> = vec![0u32; 0x40];
        words[0] = 0x100;
        Message { words }
    }

    /// Returns the code of the message, which tells a request from a
    /// response.
    pub fn code(&self) -> (code: u32)
        requires
            self.wf(),
        ensures
            code == self@[1],
    {
        self.words[1]
    }

    /// Tells whether a property can be added to the message: no property of
    /// the message has its tag, and the message has room for it.
    #[verifier::loop_isolation(false)]
    #[verifier::rlimit(30)]
    pub fn accepts(&self, prop: &Property) -> (ok: bool)
        requires
            self.wf(),
            prop.wf(),
        ensures
            ok == (!has_tag(self@, FIRST_TAG as int, prop@[0]) && end_of(self@, FIRST_TAG as int)
                + prop@.len() < BUF_WORDS),
    {
        let tag: u32 = prop.tag();
        let mut idx: usize = 2;
        while self.words[idx] != 0
            invariant
                2 <= idx < BUF_WORDS,
                ended(self@, idx as int),
                end_of(self@, idx as int) == end_of(self@, FIRST_TAG as int),
                has_tag(self@, idx as int, tag) == has_tag(self@, FIRST_TAG as int, tag),
            decreases BUF_WORDS - idx,
        {
            proof {
                lemma_end_of(self@, after(self@, idx as int));
            }
            if self.words[idx] == tag {
                return false;
            }
            idx = idx + 3 + ((self.words[idx + 1] as usize + 3) / 4);
        }
        idx + prop.words.len() < 0x40
    }

    /// Adds a property to the message: the property is written where the
    /// end tag stood, and a new end tag after it.
    ///
    /// * `prop`: Property to add. No property of the message has its tag,
    ///   and the message has room for it.
    #[verifier::loop_isolation(false)]
    #[verifier::rlimit(30)]
    pub fn add_property(&mut self, prop: &Property)
        requires
            old(self).wf(),
            prop.wf(),
            !has_tag(old(self)@, FIRST_TAG as int, prop@[0]),
            end_of(old(self)@, FIRST_TAG as int) + prop@.len() < BUF_WORDS,
        ensures
            final(self).wf(),
            final(self)@[0] == old(self)@[0],
            final(self)@[1] == old(self)@[1],
            final(self).props() == if prop@[0] == END_TAG {
                old(self).props()
            } else {
                old(self).props().push(prop@)
            },
    {
        let ghost before = self.words@;
        // Find the end tag.
        let mut idx: usize = 2;
        while self.words[idx] != 0
            invariant
                2 <= idx < BUF_WORDS,
                self.words@ == before,
                ended(before, idx as int),
                end_of(before, idx as int) == end_of(before, FIRST_TAG as int),
            decreases BUF_WORDS - idx,
        {
            proof {
                lemma_end_of(before, after(before, idx as int));
            }
            idx = idx + 3 + ((self.words[idx + 1] as usize + 3) / 4);
        }
        let end: usize = idx;
        // Copy the property.
        let size: usize = prop.words.len();
        let mut i: usize = 0;
        while i < size
            invariant
                0 <= i <= size,
                size == prop@.len(),
                end + size < BUF_WORDS,
                self.words@.len() == before.len(),
                forall|k: int| 0 <= k < end ==> self.words@[k] == before[k],
                forall|k: int| 0 <= k < i ==> self.words@[end + k] == prop@[k],
            decreases size - i,
        {
            let word: u32 = prop.words[i];
            self.words[end + i] = word;
            i = i + 1;
        }
        self.words[end + size] = 0;
        proof {
            lemma_appended(before, self.words@, FIRST_TAG as int, prop@);
        }
    }
}

} // verus!
