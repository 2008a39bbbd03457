//! The message store: messages by id, and the counter that hands out ids.

use vstd::prelude::*;
use std::collections::HashMap;
use vstd::std_specs::iter::IteratorSpec;
use crate::decimal::{decimal_digits, render_decimal};
use crate::text::{append, bytes_of, to_bytes};

verus! {

broadcast use vstd::std_specs::hash::group_hash_axioms;

/// A message: its id, its text, and the name of the user who wrote it.
#[derive(Debug)]
pub struct Message {
    pub id: u32,
    pub content: Vec<u8>,
    pub username: Vec<u8>,
}

/// What a `Message` stands for.
pub struct MessageModel {
    pub id: u32,
    pub content: Seq<u8>,
    pub username: Seq<u8>,
}

impl View for Message {
    type V = MessageModel;

    open spec fn view(&self) -> MessageModel {
        MessageModel { id: self.id, content: self.content@, username: self.username@ }
    }
}

impl Clone for Message {
    fn clone(&self) -> (copy: Message)
        ensures
            copy@ == self@,
    {
        Message {
            id: self.id,
            content: self.content.clone(),
            username: self.username.clone(),
        }
    }
}

/// What a `MessageStore` stands for: the messages by id, and the id that the
/// next new message gets.
pub struct StoreModel {
    pub messages: Map<u32, MessageModel>,
    pub next_id: u32,
}

/// Whether the messages and the counter of `store` agree: every message is
/// kept under its own id, and every id in use is at least 1 and was handed
/// out before the counter reached its present value.
pub open spec fn consistent(store: StoreModel) -> bool {
    &&& store.next_id >= 1
    &&& store.messages.dom().finite()
    &&& forall|id: u32| #[trigger]
        store.messages.contains_key(id) ==> 1 <= id < store.next_id && store.messages[id].id == id
}

/// The store without messages, its counter at 1.
pub open spec fn empty_store() -> StoreModel {
    StoreModel { messages: Map::empty(), next_id: 1 }
}

/// `store` after its counter has handed out one id.
pub open spec fn counted(store: StoreModel) -> StoreModel {
    StoreModel { messages: store.messages, next_id: (store.next_id + 1) as u32 }
}

/// `store` with a new message under the id that the counter holds, and the
/// counter one further.
pub open spec fn inserted(store: StoreModel, content: Seq<u8>, username: Seq<u8>) -> StoreModel {
    StoreModel {
        messages: store.messages.insert(
            store.next_id,
            MessageModel { id: store.next_id, content, username },
        ),
        next_id: (store.next_id + 1) as u32,
    }
}

/// `store` with the text of message `id` replaced by `content`; unchanged if
/// there is no such message.
pub open spec fn updated(store: StoreModel, id: u32, content: Seq<u8>) -> StoreModel {
    if store.messages.contains_key(id) {
        StoreModel {
            messages: store.messages.insert(
                id,
                MessageModel { id, content, username: store.messages[id].username },
            ),
            next_id: store.next_id,
        }
    } else {
        store
    }
}

/// `store` without the message `id`; the counter stays.
pub open spec fn removed(store: StoreModel, id: u32) -> StoreModel {
    StoreModel { messages: store.messages.remove(id), next_id: store.next_id }
}

/// Whether `listing` lists the messages of `store`: each of them once, as
/// the store holds it, and nothing else. The order is left open.
pub open spec fn is_listing(store: StoreModel, listing: Seq<MessageModel>) -> bool {
    &&& listing.len() == store.messages.dom().len()
    &&& forall|i: int|
        0 <= i < listing.len() ==> store.messages.contains_key(#[trigger] listing[i].id)
            && store.messages[listing[i].id] == listing[i]
    &&& forall|i: int, j: int|
        0 <= i < j < listing.len() ==> #[trigger] listing[i].id != #[trigger] listing[j].id
    &&& forall|id: u32| #[trigger]
        store.messages.contains_key(id) ==> exists|i: int|
            0 <= i < listing.len() && #[trigger] listing[i].id == id
}

/// What a list of messages stands for.
pub open spec fn listing_view(messages: Seq<Message>) -> Seq<MessageModel> {
    Seq::new(messages.len(), |i: int| messages[i]@)
}

/// `store` after the messages `items`, each a text and a user, were kept one
/// after the other.
pub open spec fn inserted_all(store: StoreModel, items: Seq<(Seq<u8>, Seq<u8>)>) -> StoreModel
    decreases items.len(),
{
    if items.len() == 0 {
        store
    } else {
        inserted(inserted_all(store, items.drop_last()), items.last().0, items.last().1)
    }
}

/// Messages that are kept one after the other get ids that count up from
/// the counter, one by one: the first message of an empty store gets 1, the
/// next 2, and so on. No two of them share an id, none takes the id of a
/// message that was there before, none is lost, and the messages that were
/// there before stay as they were.
pub proof fn lemma_inserted_all(store: StoreModel, items: Seq<(Seq<u8>, Seq<u8>)>)
    requires
        consistent(store),
        store.next_id + items.len() <= u32::MAX,
    ensures
        consistent(inserted_all(store, items)),
        inserted_all(store, items).next_id == store.next_id + items.len(),
        forall|k: int|
            #![trigger items[k]]
            0 <= k < items.len() ==> {
                let id = (store.next_id + k) as u32;
                &&& !store.messages.contains_key(id)
                &&& inserted_all(store, items).messages.contains_key(id)
                &&& inserted_all(store, items).messages[id] == MessageModel {
                    id,
                    content: items[k].0,
                    username: items[k].1,
                }
            },
        forall|id: u32| #[trigger]
            store.messages.contains_key(id) ==> inserted_all(store, items).messages.contains_key(id)
                && inserted_all(store, items).messages[id] == store.messages[id],
        inserted_all(store, items).messages.dom().len() == store.messages.dom().len()
            + items.len(),
    decreases items.len(),
{
    if items.len() > 0 {
        let front = items.drop_last();
        let before = inserted_all(store, front);
        let after = inserted_all(store, items);
        lemma_inserted_all(store, front);
        assert(!before.messages.contains_key(before.next_id));
        assert(after.messages.dom() =~= before.messages.dom().insert(before.next_id));
        assert forall|k: int|
            #![trigger items[k]]
            0 <= k < items.len() implies {
            let id = (store.next_id + k) as u32;
            &&& !store.messages.contains_key(id)
            &&& after.messages.contains_key(id)
            &&& after.messages[id] == MessageModel {
                id,
                content: items[k].0,
                username: items[k].1,
            }
        } by {
            let id = (store.next_id + k) as u32;
            if k < front.len() {
                assert(front[k] == items[k]);
            }
        }
    }
}

/// Removing a message that the store does not hold changes nothing.
pub proof fn lemma_remove_missing(store: StoreModel, id: u32)
    requires
        !store.messages.contains_key(id),
    ensures
        removed(store, id) == store,
{
    assert(store.messages.remove(id) =~= store.messages);
}

/// Once a message is removed the store no longer holds it, so that changing
/// its text changes nothing and is answered as for a message that never was.
pub proof fn lemma_update_after_remove(store: StoreModel, id: u32, content: Seq<u8>)
    ensures
        !removed(store, id).messages.contains_key(id),
        updated(removed(store, id), id, content) == removed(store, id),
{
}

/// Keeping, changing and removing messages leave a consistent store
/// consistent.
pub proof fn lemma_consistency_is_kept(
    store: StoreModel,
    id: u32,
    content: Seq<u8>,
    username: Seq<u8>,
)
    requires
        consistent(store),
    ensures
        store.next_id < u32::MAX ==> consistent(inserted(store, content, username)),
        store.next_id < u32::MAX ==> consistent(counted(store)),
        consistent(updated(store, id, content)),
        consistent(removed(store, id)),
{
}

/// What a map of messages stands for.
spec fn model_of(messages: Map<u32, Message>) -> Map<u32, MessageModel> {
    Map::new(|id: u32| messages.contains_key(id), |id: u32| messages[id]@)
}

/// `model_of` keeps the ids, so it keeps a finite map finite.
proof fn lemma_model_of(messages: Map<u32, Message>)
    ensures
        model_of(messages).dom() == messages.dom(),
{
    assert(model_of(messages).dom() =~= messages.dom());
}

/// The message store.
pub struct MessageStore {
    messages: HashMap<u32, Message>,
    next_id: u32,
}

impl View for MessageStore {
    type V = StoreModel;

    closed spec fn view(&self) -> StoreModel {
        StoreModel { messages: model_of(self.messages@), next_id: self.next_id }
    }
}

impl MessageStore {
    /// What holds of every store at all times.
    #[verifier::type_invariant]
    pub open spec fn is_consistent(self) -> bool {
        consistent(self@)
    }

    /// A store without messages. The first message will get the id 1.
    pub fn new() -> (store: MessageStore)
        ensures
            store@ == empty_store(),
            consistent(store@),
    {
        let messages: HashMap<u32, Message> = HashMap::new();
        proof {
            lemma_model_of(messages@);
            assert(model_of(messages@) =~= Map::<u32, MessageModel>::empty());
        }
        MessageStore { messages, next_id: 1 }
    }

    /// Whether the counter has run out: no further id can be handed out.
    pub fn is_full(&self) -> (full: bool)
        ensures
            full == (self@.next_id == u32::MAX),
    {
        self.next_id == u32::MAX
    }
}

/// Hands out the next id. No id is handed out twice.
pub fn get_next_id(store: &mut MessageStore) -> (id: u32)
    requires
        old(store)@.next_id < u32::MAX,
    ensures
        id == old(store)@.next_id,
        final(store)@ == counted(old(store)@),
        consistent(final(store)@),
{
    proof {
        use_type_invariant(&*store);
    }
    let id = store.next_id;
    store.next_id = id + 1;
    assert(store@.messages =~= old(store)@.messages);
    id
}

/// Keeps a new message with the text `content` by the user `username`, and
/// returns the id that it got.
pub fn add_message(store: &mut MessageStore, content: Vec<u8>, username: Vec<u8>) -> (id: u32)
    requires
        old(store)@.next_id < u32::MAX,
    ensures
        id == old(store)@.next_id,
        final(store)@ == inserted(old(store)@, content@, username@),
        consistent(final(store)@),
{
    proof {
        use_type_invariant(&*store);
    }
    let id = get_next_id(store);
    let ghost before = store@;
    let mut messages: HashMap<u32, Message> = HashMap::new();
    proof {
        lemma_model_of(messages@);
    }
    std::mem::swap(&mut messages, &mut store.messages);
    assert(model_of(messages@) == before.messages);
    messages.insert(id, Message { id, content, username });
    proof {
        lemma_model_of(messages@);
        let after = model_of(messages@);
        assert(after =~= inserted(old(store)@, content@, username@).messages);
        assert forall|k: u32| #[trigger] after.contains_key(k) implies 1 <= k < store.next_id
            && after[k].id == k by {
            if k != id {
                assert(before.messages.contains_key(k));
            }
        }
    }
    store.messages = messages;
    id
}

/// The message with the id `id`, if the store holds one.
pub fn get_message(store: &MessageStore, id: u32) -> (found: Option<Message>)
    ensures
        match found {
            Some(message) => store@.messages.contains_key(id) && store@.messages[id] == message@,
            None => !store@.messages.contains_key(id),
        },
{
    match store.messages.get(&id) {
        Some(message) => Some(message.clone()),
        None => None,
    }
}

/// A copy of every message in the store, in no particular order.
pub fn get_messages(store: &MessageStore) -> (listing: Vec<Message>)
    ensures
        is_listing(store@, listing_view(listing@)),
{
    proof {
        use_type_invariant(store);
        lemma_model_of(store.messages@);
    }
    let mut listing: Vec<Message> = Vec::new();
    let ghost all = store.messages.iter().remaining();
    for entry in it: store.messages.iter()
        invariant
            it.seq() == all,
            all.no_duplicates(),
            listing@.len() == it.index(),
            forall|i: int| 0 <= i < listing@.len() ==> #[trigger] listing@[i]@ == (*all[i].1)@,
    {
        let (_, message) = entry;
        listing.push(message.clone());
    }
    proof {
        let shown = listing_view(listing@);
        assert(shown.len() == all.len());
        assert forall|i: int, j: int| 0 <= i < j < shown.len() implies #[trigger] shown[i].id
            != #[trigger] shown[j].id by {
            if shown[i].id == shown[j].id {
                assert(store.messages@.contains_key(*all[i].0));
                assert(store.messages@.contains_key(*all[j].0));
                assert(*all[i].0 == *all[j].0);
                assert(all[i] == all[j]);
            }
        }
        assert forall|i: int| 0 <= i < shown.len() implies store@.messages.contains_key(
            #[trigger] shown[i].id,
        ) && store@.messages[shown[i].id] == shown[i] by {
            assert(store.messages@.contains_key(*all[i].0));
        }
        assert forall|id: u32| #[trigger] store@.messages.contains_key(id) implies exists|i: int|
            0 <= i < shown.len() && #[trigger] shown[i].id == id by {
            let entry = (&id, &store.messages@[id]);
            assert(all.contains(entry));
            let i = choose|i: int| 0 <= i < all.len() && all[i] == entry;
            assert(shown[i].id == id);
        }
    }
    listing
}

/// What `edit_existing_message` says when it has changed the message `id`.
pub open spec fn updated_notice(id: u32) -> Seq<u8> {
    bytes_of("Message with ID "@) + decimal_digits(id as nat) + bytes_of(" updated"@)
}

/// What `edit_existing_message` says when there is no message `id`.
pub open spec fn missing_notice(id: u32) -> Seq<u8> {
    bytes_of("Message with ID "@) + decimal_digits(id as nat) + bytes_of(" not found"@)
}

/// What `delete_message` says when it has removed the message `id`.
pub open spec fn deleted_notice(id: u32) -> Seq<u8> {
    bytes_of("Message with ID "@) + decimal_digits(id as nat) + bytes_of(" deleted"@)
}

/// Writes `Message with ID `, the id and `ending`.
fn notice(id: u32, ending: &str) -> (text: Vec<u8>)
    ensures
        text@ == bytes_of("Message with ID "@) + decimal_digits(id as nat) + bytes_of(ending@),
{
    let mut text = to_bytes("Message with ID ");
    append(&mut text, render_decimal(id as u64).as_slice());
    append(&mut text, ending.as_bytes());
    text
}

/// Replaces the text of the message `id` by `new_content`. Where there is no
/// such message the store stays as it is, and the error says so.
pub fn edit_existing_message(store: &mut MessageStore, id: u32, new_content: Vec<u8>) -> (r:
    Result<Vec<u8>, Vec<u8>>)
    ensures
        final(store)@ == updated(old(store)@, id, new_content@),
        consistent(final(store)@),
        match r {
            Ok(text) => old(store)@.messages.contains_key(id) && text@ == updated_notice(id),
            Err(text) => !old(store)@.messages.contains_key(id) && text@ == missing_notice(id),
        },
{
    proof {
        use_type_invariant(&*store);
    }
    let username = match store.messages.get(&id) {
        Some(message) => message.username.clone(),
        None => {
            return Err(notice(id, " not found"));
        },
    };
    let ghost before = store@;
    let mut messages: HashMap<u32, Message> = HashMap::new();
    proof {
        lemma_model_of(messages@);
    }
    std::mem::swap(&mut messages, &mut store.messages);
    assert(model_of(messages@) == before.messages);
    messages.insert(id, Message { id, content: new_content, username });
    proof {
        lemma_model_of(messages@);
        let after = model_of(messages@);
        assert(after =~= updated(before, id, new_content@).messages);
        assert forall|k: u32| #[trigger] after.contains_key(k) implies 1 <= k < store.next_id
            && after[k].id == k by {
            assert(before.messages.contains_key(k));
        }
    }
    store.messages = messages;
    Ok(notice(id, " updated"))
}

/// Removes the message `id`. Where there is no such message the store stays
/// as it is, and the error says so.
pub fn delete_message(store: &mut MessageStore, id: u32) -> (r: Result<Vec<u8>, Vec<u8>>)
    ensures
        final(store)@ == removed(old(store)@, id),
        consistent(final(store)@),
        match r {
            Ok(text) => old(store)@.messages.contains_key(id) && text@ == deleted_notice(id),
            Err(text) => !old(store)@.messages.contains_key(id) && text@ == bytes_of(
                "Message not found"@,
            ) && final(store)@ == old(store)@,
        },
{
    proof {
        use_type_invariant(&*store);
    }
    let ghost before = store@;
    let mut messages: HashMap<u32, Message> = HashMap::new();
    proof {
        lemma_model_of(messages@);
    }
    std::mem::swap(&mut messages, &mut store.messages);
    assert(model_of(messages@) == before.messages);
    let taken = messages.remove(&id);
    proof {
        lemma_model_of(messages@);
        let after = model_of(messages@);
        assert(after =~= removed(before, id).messages);
        assert forall|k: u32| #[trigger] after.contains_key(k) implies 1 <= k < store.next_id
            && after[k].id == k by {
            assert(before.messages.contains_key(k));
        }
        if taken is None {
            assert(after =~= before.messages);
        }
    }
    store.messages = messages;
    match taken {
        Some(_) => Ok(notice(id, " deleted")),
        None => Err(to_bytes("Message not found")),
    }
}

} // verus!
