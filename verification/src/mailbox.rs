//! The per-session view of a mailbox: messages with staged deletion marks.

use vstd::prelude::*;
use crate::text::copy_bytes;

verus! {

/// Why a mailbox operation on one message was refused.
#[derive(Clone, Copy, Debug, PartialEq, Eq, Structural)]
pub enum MailboxError {
    /// The index is not in `1..=len`.
    OutOfRange,
    /// The message at that index carries a deletion mark.
    AlreadyDeleted,
}

/// The mathematical model of one message.
pub struct MessageView {
    pub content: Seq<u8>,
    pub deleted: bool,
}

/// One message of a snapshot.
#[derive(Clone, Debug, PartialEq, Eq)]
pub struct Message {
    /// The message as it is sent to the client.
    pub content: Vec<u8>,
    /// The cached length of `content`.
    pub size: usize,
    /// The 1-based position in the snapshot.
    pub ordinal: usize,
    /// Whether the message is staged for deletion.
    pub deleted: bool,
}

impl View for Message {
    type V = MessageView;

    open spec fn view(&self) -> MessageView {
        MessageView { content: self.content@, deleted: self.deleted }
    }
}

/// The number of messages without a deletion mark among the first `n`.
pub open spec fn live_count(m: Seq<MessageView>, n: int) -> nat
    decreases n,
{
    if n <= 0 {
        0
    } else {
        live_count(m, n - 1) + if m[n - 1].deleted { 0nat } else { 1nat }
    }
}

/// The sum of the lengths of the messages without a deletion mark among the first `n`.
pub open spec fn live_octets(m: Seq<MessageView>, n: int) -> nat
    decreases n,
{
    if n <= 0 {
        0
    } else {
        live_octets(m, n - 1) + if m[n - 1].deleted { 0nat } else { m[n - 1].content.len() }
    }
}

/// The scan listing over the first `n` messages: index and length of each
/// message without a deletion mark, in ascending index order.
pub open spec fn live_entries(m: Seq<MessageView>, n: int) -> Seq<(usize, usize)>
    decreases n,
{
    if n <= 0 {
        Seq::empty()
    } else if m[n - 1].deleted {
        live_entries(m, n - 1)
    } else {
        live_entries(m, n - 1).push((n as usize, m[n - 1].content.len() as usize))
    }
}

/// The indices of the messages with a deletion mark among the first `n`, ascending.
pub open spec fn marked_ordinals(m: Seq<MessageView>, n: int) -> Seq<usize>
    decreases n,
{
    if n <= 0 {
        Seq::empty()
    } else if m[n - 1].deleted {
        marked_ordinals(m, n - 1).push(n as usize)
    } else {
        marked_ordinals(m, n - 1)
    }
}

/// The sum of the lengths named by a scan listing.
pub open spec fn entries_octets(e: Seq<(usize, usize)>) -> nat
    decreases e.len(),
{
    if e.len() == 0 {
        0
    } else {
        entries_octets(e.drop_last()) + e.last().1 as nat
    }
}

/// The position of message `index`, or why it cannot be reached.
pub open spec fn locate(m: Seq<MessageView>, index: usize) -> Result<int, MailboxError> {
    if index < 1 || index > m.len() {
        Err(MailboxError::OutOfRange)
    } else if m[index - 1].deleted {
        Err(MailboxError::AlreadyDeleted)
    } else {
        Ok(index - 1)
    }
}

/// What `LIST` answers: one entry for a reachable index, all live entries without one.
pub open spec fn list_spec(m: Seq<MessageView>, index: Option<usize>) -> Result<
    Seq<(usize, usize)>,
    MailboxError,
> {
    match index {
        None => Ok(live_entries(m, m.len() as int)),
        Some(i) => match locate(m, i) {
            Ok(p) => Ok(seq![(i, m[p].content.len() as usize)]),
            Err(e) => Err(e),
        },
    }
}

/// The mailbox with message `index` marked; unchanged where it cannot be reached.
pub open spec fn mark_spec(m: Seq<MessageView>, index: usize) -> Seq<MessageView> {
    match locate(m, index) {
        Ok(p) => m.update(p, MessageView { content: m[p].content, deleted: true }),
        Err(_) => m,
    }
}

/// The mailbox with every deletion mark cleared.
pub open spec fn reset_spec(m: Seq<MessageView>) -> Seq<MessageView> {
    Seq::new(m.len(), |i: int| MessageView { content: m[i].content, deleted: false })
}

/// The frozen view of one user's mailbox, taken when the session enters the
/// transaction state. Positions never change; deletions are only marks.
#[derive(Clone, Debug, PartialEq, Eq)]
pub struct MailboxSnapshot {
    /// The user whose mailbox this is.
    pub owner: Vec<u8>,
    /// The messages, in provider order.
    pub messages: Vec<Message>,
}

impl View for MailboxSnapshot {
    type V = Seq<MessageView>;

    open spec fn view(&self) -> Seq<MessageView> {
        Seq::new(self.messages@.len(), |i: int| self.messages@[i]@)
    }
}

impl MailboxSnapshot {
    /// Every message caches its own length and knows its 1-based position.
    pub open spec fn wf(&self) -> bool {
        forall|i: int|
            0 <= i < self.messages@.len() ==> {
                &&& (#[trigger] self.messages@[i]).size == self.messages@[i].content@.len()
                &&& self.messages@[i].ordinal == i + 1
            }
    }

    /// Freezes the provider's messages, in order, with no deletion marks.
    pub fn snapshot(owner: Vec<u8>, contents: &Vec<Vec<u8>>) -> (snap: MailboxSnapshot)
        ensures
            snap.wf(),
            snap.owner@ == owner@,
            snap@.len() == contents@.len(),
            forall|i: int|
                0 <= i < contents@.len() ==> (#[trigger] snap@[i]).content == contents@[i]@
                    && !snap@[i].deleted,
    {
        let mut messages: Vec<Message> = Vec::new();
        let mut i: usize = 0;
        while i < contents.len()
            invariant
                i <= contents@.len(),
                messages@.len() == i,
                forall|k: int|
                    0 <= k < i ==> {
                        &&& (#[trigger] messages@[k]).content@ == contents@[k]@
                        &&& !messages@[k].deleted
                        &&& messages@[k].size == contents@[k]@.len()
                        &&& messages@[k].ordinal == k + 1
                    },
            decreases contents@.len() - i,
        {
            let content = copy_bytes(contents[i].as_slice());
            let size = content.len();
            messages.push(Message { content, size, ordinal: i + 1, deleted: false });
            i += 1;
        }
        MailboxSnapshot { owner, messages }
    }

    /// The number of messages, marked or not.
    pub fn len(&self) -> (n: usize)
        ensures
            n == self@.len(),
    {
        self.messages.len()
    }

    /// `STAT`: how many messages carry no deletion mark, and their total length.
    pub fn stat(&self) -> (r: (usize, u128))
        requires
            self.wf(),
        ensures
            r.0 == live_count(self@, self@.len() as int),
            r.1 == live_octets(self@, self@.len() as int),
    {
        let mut count: usize = 0;
        let mut octets: u128 = 0;
        let mut i: usize = 0;
        while i < self.messages.len()
            invariant
                self.wf(),
                i <= self.messages@.len(),
                count == live_count(self@, i as int),
                count <= i,
                octets == live_octets(self@, i as int),
                octets <= i * 0xFFFF_FFFF_FFFF_FFFF,
            decreases self.messages@.len() - i,
        {
            let m = &self.messages[i];
            if !m.deleted {
                count += 1;
                octets += m.size as u128;
            }
            i += 1;
        }
        (count, octets)
    }

    /// `LIST`: with an index, the entry of that message, or why it cannot be
    /// reached; without, the entries of all messages that carry no deletion
    /// mark, in ascending index order.
    pub fn list(&self, index: Option<usize>) -> (r: Result<Vec<(usize, usize)>, MailboxError>)
        requires
            self.wf(),
        ensures
            match list_spec(self@, index) {
                Ok(e) => r is Ok && r->Ok_0@ == e,
                Err(e) => r == Err::<Vec<(usize, usize)>, MailboxError>(e),
            },
    {
        match index {
            Some(i) => {
                if i < 1 || i > self.messages.len() {
                    return Err(MailboxError::OutOfRange);
                }
                let m = &self.messages[i - 1];
                if m.deleted {
                    return Err(MailboxError::AlreadyDeleted);
                }
                let mut one: Vec<(usize, usize)> = Vec::new();
                one.push((i, m.size));
                assert(one@ =~= seq![(i, self@[i - 1].content.len() as usize)]);
                Ok(one)
            },
            None => {
                let mut all: Vec<(usize, usize)> = Vec::new();
                let mut k: usize = 0;
                while k < self.messages.len()
                    invariant
                        self.wf(),
                        k <= self.messages@.len(),
                        all@ == live_entries(self@, k as int),
                    decreases self.messages@.len() - k,
                {
                    let m = &self.messages[k];
                    if !m.deleted {
                        all.push((m.ordinal, m.size));
                    }
                    k += 1;
                }
                Ok(all)
            },
        }
    }

    /// `RETR`: the content of message `index`, unless it is out of range or marked.
    pub fn retrieve(&self, index: usize) -> (r: Result<&Vec<u8>, MailboxError>)
        ensures
            match locate(self@, index) {
                Ok(p) => r is Ok && r->Ok_0@ == self@[p].content,
                Err(e) => r == Err::<&Vec<u8>, MailboxError>(e),
            },
    {
        if index < 1 || index > self.messages.len() {
            return Err(MailboxError::OutOfRange);
        }
        let m = &self.messages[index - 1];
        if m.deleted {
            return Err(MailboxError::AlreadyDeleted);
        }
        Ok(&m.content)
    }

    /// `DELE`: marks message `index`. Out of range or already marked, it is
    /// refused and nothing changes.
    pub fn mark_deleted(&mut self, index: usize) -> (r: Result<(), MailboxError>)
        requires
            old(self).wf(),
        ensures
            final(self).wf(),
            final(self).owner == old(self).owner,
            final(self)@ == mark_spec(old(self)@, index),
            match locate(old(self)@, index) {
                Ok(_) => r == Ok::<(), MailboxError>(()),
                Err(e) => r == Err::<(), MailboxError>(e) && *final(self) == *old(self),
            },
    {
        if index < 1 || index > self.messages.len() {
            return Err(MailboxError::OutOfRange);
        }
        if self.messages[index - 1].deleted {
            return Err(MailboxError::AlreadyDeleted);
        }
        self.messages[index - 1].deleted = true;
        assert(self@ =~= mark_spec(old(self)@, index));
        Ok(())
    }

    /// `RSET`: clears every deletion mark.
    pub fn reset_deletions(&mut self)
        requires
            old(self).wf(),
        ensures
            final(self).wf(),
            final(self).owner == old(self).owner,
            final(self)@ == reset_spec(old(self)@),
    {
        let n = self.messages.len();
        let mut i: usize = 0;
        while i < n
            invariant
                n == self.messages@.len(),
                n == old(self).messages@.len(),
                i <= n,
                self.wf(),
                self.owner == old(self).owner,
                forall|k: int|
                    0 <= k < n ==> (#[trigger] self.messages@[k]).content@ == old(
                        self,
                    ).messages@[k].content@,
                forall|k: int| 0 <= k < i ==> !(#[trigger] self.messages@[k]).deleted,
            decreases n - i,
        {
            self.messages[i].deleted = false;
            i += 1;
        }
        assert(self@ =~= reset_spec(old(self)@));
    }

    /// The indices of the messages staged for deletion, ascending: what a
    /// commit hands to the provider.
    pub fn marked(&self) -> (r: Vec<usize>)
        requires
            self.wf(),
        ensures
            r@ == marked_ordinals(self@, self@.len() as int),
    {
        let mut out: Vec<usize> = Vec::new();
        let mut k: usize = 0;
        while k < self.messages.len()
            invariant
                self.wf(),
                k <= self.messages@.len(),
                out@ == marked_ordinals(self@, k as int),
            decreases self.messages@.len() - k,
        {
            let m = &self.messages[k];
            if m.deleted {
                out.push(m.ordinal);
            }
            k += 1;
        }
        out
    }
}

proof fn lemma_entries_agree(m: Seq<MessageView>, n: int)
    requires
        0 <= n <= m.len(),
        forall|i: int| 0 <= i < m.len() ==> (#[trigger] m[i]).content.len() <= usize::MAX,
    ensures
        entries_octets(live_entries(m, n)) == live_octets(m, n),
        live_entries(m, n).len() == live_count(m, n),
    decreases n,
{
    if n > 0 {
        lemma_entries_agree(m, n - 1);
        if !m[n - 1].deleted {
            let before = live_entries(m, n - 1);
            let entry = (n as usize, m[n - 1].content.len() as usize);
            assert(before.push(entry).drop_last() =~= before);
            assert(before.push(entry).last() == entry);
        }
    }
}

proof fn lemma_reset_count(m: Seq<MessageView>, n: int)
    requires
        0 <= n <= m.len(),
    ensures
        live_count(reset_spec(m), n) == n,
        marked_ordinals(reset_spec(m), n) == Seq::<usize>::empty(),
    decreases n,
{
    if n > 0 {
        lemma_reset_count(m, n - 1);
    }
}

proof fn lemma_entries_shape(m: Seq<MessageView>, n: int)
    requires
        0 <= n <= m.len() <= usize::MAX,
        forall|i: int| 0 <= i < m.len() ==> (#[trigger] m[i]).content.len() <= usize::MAX,
    ensures
        forall|k: int|
            0 <= k < live_entries(m, n).len() ==> {
                let e = #[trigger] live_entries(m, n)[k];
                &&& 1 <= e.0 <= n
                &&& !m[e.0 - 1].deleted
                &&& e.1 == m[e.0 - 1].content.len()
            },
        forall|j: int, k: int|
            0 <= j < k < live_entries(m, n).len() ==> (#[trigger] live_entries(m, n)[j]).0 < (
            #[trigger] live_entries(m, n)[k]).0,
        forall|i: int|
            0 <= i < n && !(#[trigger] m[i]).deleted ==> exists|k: int|
                0 <= k < live_entries(m, n).len() && (#[trigger] live_entries(m, n)[k]).0 == i
                    + 1,
    decreases n,
{
    if n > 0 {
        lemma_entries_shape(m, n - 1);
        let before = live_entries(m, n - 1);
        let now = live_entries(m, n);
        if !m[n - 1].deleted {
            assert(now[before.len() as int].0 == n);
            assert forall|k: int| 0 <= k < before.len() implies now[k] == before[k] by {}
        }
        assert forall|i: int| 0 <= i < n && !(#[trigger] m[i]).deleted implies exists|k: int|
            0 <= k < now.len() && (#[trigger] now[k]).0 == i + 1 by {
            if i < n - 1 {
                let k = choose|k: int| 0 <= k < before.len() && (#[trigger] before[k]).0 == i + 1;
                assert(now[k].0 == i + 1);
            } else {
                assert(now[before.len() as int].0 == i + 1);
            }
        }
    }
}

/// An unrestricted listing names exactly the messages without a deletion
/// mark: each entry is such a message with its index and length, the
/// indices ascend, and no such message is left out.
pub proof fn law_listing_is_exact(mailbox: MailboxSnapshot)
    requires
        mailbox.wf(),
    ensures
        ({
            let m = mailbox@;
            let es = list_spec(m, None)->Ok_0;
            &&& forall|k: int|
                0 <= k < es.len() ==> {
                    let e = #[trigger] es[k];
                    &&& locate(m, e.0) == Ok::<int, MailboxError>(e.0 - 1)
                    &&& e.1 == m[e.0 - 1].content.len()
                }
            &&& forall|j: int, k: int|
                0 <= j < k < es.len() ==> (#[trigger] es[j]).0 < (#[trigger] es[k]).0
            &&& forall|index: usize| #[trigger]
                locate(m, index) is Ok ==> exists|k: int|
                    0 <= k < es.len() && (#[trigger] es[k]).0 == index
        }),
{
    let m = mailbox@;
    lemma_entries_shape(m, m.len() as int);
    let es = live_entries(m, m.len() as int);
    assert forall|index: usize| #[trigger] locate(m, index) is Ok implies exists|k: int|
        0 <= k < es.len() && (#[trigger] es[k]).0 == index by {
        assert(!m[index - 1].deleted);
    }
}

/// The lengths in an unrestricted listing add up to the total that `stat`
/// reports, and the listing has as many entries as `stat` counts messages.
pub proof fn law_list_agrees_with_stat(mailbox: MailboxSnapshot)
    requires
        mailbox.wf(),
    ensures
        list_spec(mailbox@, None) is Ok,
        entries_octets(list_spec(mailbox@, None)->Ok_0) == live_octets(
            mailbox@,
            mailbox@.len() as int,
        ),
        list_spec(mailbox@, None)->Ok_0.len() == live_count(mailbox@, mailbox@.len() as int),
{
    lemma_entries_agree(mailbox@, mailbox@.len() as int);
}

/// Once a message is marked, retrieving it, listing it and marking it again
/// are all refused as already deleted.
pub proof fn law_marked_message_is_hidden(m: Seq<MessageView>, index: usize)
    requires
        locate(m, index) is Ok,
    ensures
        locate(mark_spec(m, index), index) == Err::<int, MailboxError>(
            MailboxError::AlreadyDeleted,
        ),
        list_spec(mark_spec(m, index), Some(index)) == Err::<
            Seq<(usize, usize)>,
            MailboxError,
        >(MailboxError::AlreadyDeleted),
        mark_spec(mark_spec(m, index), index) == mark_spec(m, index),
{
}

/// Marking any message leaves every earlier mark in place: a marked message
/// stays unreachable whatever is marked after it.
pub proof fn law_marks_persist(m: Seq<MessageView>, index: usize, other: usize)
    requires
        locate(m, index) == Err::<int, MailboxError>(MailboxError::AlreadyDeleted),
    ensures
        locate(mark_spec(m, other), index) == Err::<int, MailboxError>(
            MailboxError::AlreadyDeleted,
        ),
{
}

/// A reset makes every message in range reachable again and brings the live
/// count back to the number of messages in the snapshot.
pub proof fn law_reset_restores_all(m: Seq<MessageView>)
    ensures
        live_count(reset_spec(m), m.len() as int) == m.len(),
        marked_ordinals(reset_spec(m), m.len() as int) == Seq::<usize>::empty(),
        forall|index: usize|
            1 <= index <= m.len() ==> #[trigger] locate(reset_spec(m), index) == Ok::<
                int,
                MailboxError,
            >(index - 1),
{
    lemma_reset_count(m, m.len() as int);
}

} // verus!
