//! The handlers of the message service: logging in, and listing, reading,
//! writing, changing and deleting messages.

use vstd::prelude::*;
use crate::assoc::lookup;
use crate::decimal::{decimal_digits, parse_u32, render_decimal, u32_value};
use crate::fields::{Fields, Pairs};
use crate::http::parser::{
    body_view, create_response, plain_response, Body, BodyModel, Request, RequestModel, Response,
    ResponseModel,
};
use crate::json::{json_member, json_string, member, string};
use crate::store::{
    add_message, consistent, delete_message, deleted_notice, edit_existing_message, get_message,
    get_messages, inserted, is_listing, listing_view, missing_notice, removed, updated,
    updated_notice, Message, MessageModel, MessageStore, StoreModel,
};
use crate::text::{append, bytes_of, to_bytes};

verus! {

/// The response to a JSON body that has no member `key`.
pub open spec fn missing_member(key: Seq<char>) -> ResponseModel {
    plain_response(
        400,
        Some(bytes_of("Missing '"@) + bytes_of(key) + bytes_of("' in JSON body"@)),
    )
}

/// The response to a request without a body.
pub open spec fn invalid_body() -> ResponseModel {
    plain_response(400, Some(bytes_of("Invalid request body"@)))
}

/// The response to a request for a message that the store does not hold.
pub open spec fn message_not_found() -> ResponseModel {
    plain_response(404, Some(bytes_of("Message not found"@)))
}

/// The text that a request body gives under `key`: a text body as it is; of
/// a JSON body the member `key`, read as empty if it is no string. Where
/// there is no text, the response that says why.
pub open spec fn text_in_body(body: Option<BodyModel>, key: Seq<char>) -> Result<
    Seq<u8>,
    ResponseModel,
> {
    match body {
        Some(BodyModel::Text(text)) => Ok(text),
        Some(BodyModel::Json(value)) => match json_member(value, key) {
            Some(found) => Ok(
                match json_string(found) {
                    Some(text) => bytes_of(text),
                    None => Seq::empty(),
                },
            ),
            None => Err(missing_member(key)),
        },
        None => Err(invalid_body()),
    }
}

/// The id that a request names: the number in its parameter `id`, and 0
/// where there is no such parameter or it holds no number that fits.
pub open spec fn requested_id(params: Pairs) -> u32 {
    match lookup(params, bytes_of("id"@)) {
        Some(value) => match u32_value(value) {
            Some(id) => id,
            None => 0,
        },
        None => 0,
    }
}

/// One message as a line of text: the id, the text and the user.
pub open spec fn message_line(message: MessageModel) -> Seq<u8> {
    decimal_digits(message.id as nat) + bytes_of(": "@) + message.content + bytes_of(" (by "@)
        + message.username + bytes_of(")"@)
}

/// The lines of `listing`, with a line feed between one and the next.
pub open spec fn listing_text(listing: Seq<MessageModel>) -> Seq<u8>
    decreases listing.len(),
{
    if listing.len() == 0 {
        Seq::empty()
    } else if listing.len() == 1 {
        message_line(listing[0])
    } else {
        listing_text(listing.drop_last()) + bytes_of("\n"@) + message_line(listing.last())
    }
}

/// The response of `login_controller` to `request`: a welcome to the user
/// that the body names, with that name as the cookie `username`.
pub open spec fn login_response(request: RequestModel) -> ResponseModel {
    match text_in_body(request.body, "username"@) {
        Ok(name) => ResponseModel {
            status_code: 200,
            headers: plain_response(
                200,
                Some(bytes_of("Welcome, "@) + name + bytes_of("!"@)),
            ).headers,
            body: Some(bytes_of("Welcome, "@) + name + bytes_of("!"@)),
            cookies: Some(seq![(bytes_of("username"@), name)]),
        },
        Err(response) => response,
    }
}

/// The response of `get_message_by_id_controller` to `request`.
pub open spec fn read_response(store: StoreModel, request: RequestModel) -> ResponseModel {
    let id = requested_id(request.params);
    if store.messages.contains_key(id) {
        plain_response(200, Some(message_line(store.messages[id])))
    } else {
        message_not_found()
    }
}

/// What `post_message_controller` makes of `store` on `request`, and its
/// response: a new message with the text of the body, by the user that the
/// cookie `username` names.
pub open spec fn post_outcome(store: StoreModel, request: RequestModel) -> (
    StoreModel,
    ResponseModel,
) {
    match text_in_body(request.body, "message"@) {
        Err(response) => (store, response),
        Ok(content) => match lookup(request.cookies, bytes_of("username"@)) {
            None => (store, plain_response(400, Some(bytes_of("Missing username in cookies"@)))),
            Some(username) => (
                inserted(store, content, username),
                plain_response(
                    201,
                    Some(
                        bytes_of("Message created with ID: "@) + decimal_digits(
                            store.next_id as nat,
                        ) + bytes_of(" by user: "@) + username,
                    ),
                ),
            ),
        },
    }
}

/// What `edit_existing_message_controller` makes of `store` on `request`,
/// and its response: the message that the request names gets the text of the
/// body.
pub open spec fn edit_outcome(store: StoreModel, request: RequestModel) -> (
    StoreModel,
    ResponseModel,
) {
    let id = requested_id(request.params);
    match text_in_body(request.body, "message"@) {
        Err(response) => (store, response),
        Ok(content) => if store.messages.contains_key(id) {
            (updated(store, id, content), plain_response(200, Some(updated_notice(id))))
        } else {
            (store, plain_response(404, Some(missing_notice(id))))
        },
    }
}

/// What `edit_or_create_message_controller` makes of `store` on `request`,
/// and its response: as `edit_outcome` where the store holds the message that
/// the request names, as `post_outcome` where it does not, and nothing for
/// the id 0.
pub open spec fn put_outcome(store: StoreModel, request: RequestModel) -> (
    StoreModel,
    ResponseModel,
) {
    let id = requested_id(request.params);
    if id == 0 {
        (store, message_not_found())
    } else if store.messages.contains_key(id) {
        edit_outcome(store, request)
    } else {
        post_outcome(store, request)
    }
}

/// What `delete_message_by_id_controller` makes of `store` on `request`, and
/// its response.
pub open spec fn delete_outcome(store: StoreModel, request: RequestModel) -> (
    StoreModel,
    ResponseModel,
) {
    let id = requested_id(request.params);
    if store.messages.contains_key(id) {
        (removed(store, id), plain_response(200, Some(deleted_notice(id))))
    } else {
        (store, message_not_found())
    }
}

/// Reads the text that `body` gives under `key`.
fn body_text(body: &Option<Body>, key: &str) -> (r: Result<Vec<u8>, Response>)
    ensures
        match r {
            Ok(text) => text_in_body(body_view(*body), key@) == Ok::<
                Seq<u8>,
                ResponseModel,
            >(text@),
            Err(response) => text_in_body(body_view(*body), key@) == Err::<
                Seq<u8>,
                ResponseModel,
            >(response@),
        },
{
    match body {
        Some(Body::Text(text)) => Ok(text.clone()),
        Some(Body::Json(value)) => match member(value, key) {
            Some(found) => match string(found) {
                Some(text) => Ok(to_bytes(text)),
                None => Ok(Vec::new()),
            },
            None => {
                let mut text = to_bytes("Missing '");
                append(&mut text, key.as_bytes());
                append(&mut text, "' in JSON body".as_bytes());
                Err(create_response(400, Some(text)))
            },
        },
        None => Err(create_response(400, Some(to_bytes("Invalid request body")))),
    }
}

/// Reads the id that `params` name.
fn id_of(params: &Fields) -> (id: u32)
    ensures
        id == requested_id(params@),
{
    match params.get("id".as_bytes()) {
        Some(value) => match parse_u32(value.as_slice()) {
            Some(id) => id,
            None => 0,
        },
        None => 0,
    }
}

/// Writes one message as a line of text.
fn write_message(out: &mut Vec<u8>, message: &Message)
    ensures
        final(out)@ == old(out)@ + message_line(message@),
{
    append(out, render_decimal(message.id as u64).as_slice());
    append(out, ": ".as_bytes());
    append(out, message.content.as_slice());
    append(out, " (by ".as_bytes());
    append(out, message.username.as_slice());
    append(out, ")".as_bytes());
    assert(out@ =~= old(out)@ + message_line(message@));
}

/// Logs a user in: answers with a welcome and sets the cookie `username`
/// to the name that the body gives.
pub fn login_controller(req: Request) -> (response: Response)
    ensures
        response@ == login_response(req@),
{
    let username = match body_text(&req.body, "username") {
        Ok(text) => text,
        Err(response) => {
            return response;
        },
    };
    let mut cookies = Fields::new();
    cookies.insert(to_bytes("username"), username.clone());
    assert(cookies@ =~= seq![(bytes_of("username"@), username@)]);
    let mut body = to_bytes("Welcome, ");
    append(&mut body, username.as_slice());
    append(&mut body, "!".as_bytes());
    let mut response = create_response(200, Some(body));
    response.cookies = Some(cookies);
    response
}

/// Lists all messages, one to a line.
pub fn get_messages_controller(store: &MessageStore, _req: Request) -> (response: Response)
    ensures
        exists|listing: Seq<MessageModel>|
            is_listing(store@, listing) && response@ == plain_response(
                200,
                Some(#[trigger] listing_text(listing)),
            ),
{
    let messages = get_messages(store);
    let ghost listing = listing_view(messages@);
    let mut body: Vec<u8> = Vec::new();
    let mut i: usize = 0;
    assert(listing.take(0) =~= Seq::<MessageModel>::empty());
    while i < messages.len()
        invariant
            i <= messages@.len(),
            listing == listing_view(messages@),
            body@ == listing_text(listing.take(i as int)),
        decreases messages@.len() - i,
    {
        if i > 0 {
            append(&mut body, "\n".as_bytes());
        }
        write_message(&mut body, &messages[i]);
        proof {
            let shown = listing.take(i + 1);
            assert(shown.drop_last() =~= listing.take(i as int));
            assert(shown.last() == messages@[i as int]@);
            if i == 0 {
                assert(body@ =~= message_line(shown[0]));
            }
        }
        i += 1;
    }
    assert(listing.take(i as int) =~= listing);
    create_response(200, Some(body))
}

/// Shows the message that the request names.
pub fn get_message_by_id_controller(store: &MessageStore, req: Request) -> (response: Response)
    ensures
        response@ == read_response(store@, req@),
{
    let id = id_of(&req.params);
    match get_message(store, id) {
        Some(message) => {
            let mut body: Vec<u8> = Vec::new();
            write_message(&mut body, &message);
            assert(body@ =~= message_line(message@));
            create_response(200, Some(body))
        },
        None => create_response(404, Some(to_bytes("Message not found"))),
    }
}

/// Keeps a new message: its text is the body of the request, its user the
/// one that the cookie `username` names.
pub fn post_message_controller(store: &mut MessageStore, req: Request) -> (response: Response)
    requires
        old(store)@.next_id < u32::MAX,
    ensures
        (final(store)@, response@) == post_outcome(old(store)@, req@),
        consistent(final(store)@),
{
    let content = match body_text(&req.body, "message") {
        Ok(text) => text,
        Err(response) => {
            proof {
                use_type_invariant(&*store);
            }
            return response;
        },
    };
    let username = match req.cookies.get("username".as_bytes()) {
        Some(name) => name.clone(),
        None => {
            proof {
                use_type_invariant(&*store);
            }
            return create_response(400, Some(to_bytes("Missing username in cookies")));
        },
    };
    let id = add_message(store, content, username.clone());
    let mut body = to_bytes("Message created with ID: ");
    append(&mut body, render_decimal(id as u64).as_slice());
    append(&mut body, " by user: ".as_bytes());
    append(&mut body, username.as_slice());
    create_response(201, Some(body))
}

/// Gives the message that the request names the text of the body.
pub fn edit_existing_message_controller(store: &mut MessageStore, req: Request) -> (response:
    Response)
    ensures
        (final(store)@, response@) == edit_outcome(old(store)@, req@),
        consistent(final(store)@),
{
    let id = id_of(&req.params);
    let new_message = match body_text(&req.body, "message") {
        Ok(text) => text,
        Err(response) => {
            proof {
                use_type_invariant(&*store);
            }
            return response;
        },
    };
    match edit_existing_message(store, id, new_message) {
        Ok(text) => create_response(200, Some(text)),
        Err(text) => create_response(404, Some(text)),
    }
}

/// Changes the message that the request names if the store holds it, and
/// keeps a new message if not.
pub fn edit_or_create_message_controller(store: &mut MessageStore, req: Request) -> (response:
    Response)
    requires
        old(store)@.next_id < u32::MAX,
    ensures
        (final(store)@, response@) == put_outcome(old(store)@, req@),
        consistent(final(store)@),
{
    let id = id_of(&req.params);
    if id == 0 {
        proof {
            use_type_invariant(&*store);
        }
        return create_response(404, Some(to_bytes("Message not found")));
    }
    if get_message(store, id).is_some() {
        edit_existing_message_controller(store, req)
    } else {
        post_message_controller(store, req)
    }
}

/// Removes the message that the request names.
pub fn delete_message_by_id_controller(store: &mut MessageStore, req: Request) -> (response:
    Response)
    ensures
        (final(store)@, response@) == delete_outcome(old(store)@, req@),
        consistent(final(store)@),
{
    let id = id_of(&req.params);
    match delete_message(store, id) {
        Ok(text) => create_response(200, Some(text)),
        Err(text) => create_response(404, Some(text)),
    }
}

} // verus!
