//! The Net2 Local API without the browser: server origins, error messages,
//! the records read from its JSON replies, and the portrait file rules.
use vstd::prelude::*;
use vstd::utf8::encode_utf8;
use crate::json::{field, field_of, fields_view, json_reply, json_text, lookup, text, text_of, Json, JsonView, Scalar, ScalarView};
use crate::text::{
    all_digits, append_chars, append_str, chars_of, contains, contains_chars, decimal_chars,
    decimal_text, digits_value, is_digit, is_white_space, join_nonempty, join_push, join_with,
    last_index_of, lemma_decimal_text, lemma_text_less_asymmetric,
    lemma_text_not_less_transitive, lower, lowercase, parse_u32, replace_all,
    replace_all_chars, replace_first, replace_first_chars, string_of, text_less,
    text_less_chars, to_lowercase, trim, trim_end, trim_end_char, trim_end_char_chars,
    trim_start, trimmed, unicode_lowercase, unsigned_digits,
};

verus! {

/// The token type preselected until someone picks another.
pub const DEFAULT_TOKEN_TYPE: &'static str = "ProxIsoCardWithoutMagstripe";

/// Net2's token types: the API's name, then the label Net2 shows, in Net2's
/// order. Net2's "Dual credential" has no API name, so it is not offered.
pub open spec fn token_type_table() -> Seq<(Seq<char>, Seq<char>)> {
    seq![
        ("Unspecified"@, "Unspecified"@),
        ("ProxCard"@, "Proximity card"@),
        ("ProxIsoCard"@, "Proximity ISO card"@),
        ("ProxIsoCardWithoutMagstripe"@, "Proximity ISO card no magstripe"@),
        ("Keyfob"@, "Keyfob"@),
        ("HandsFreeToken"@, "Hands free token"@),
        ("HandsFreeKeyCard"@, "Hands free keycard"@),
        ("Watchprox"@, "Watchprox"@),
        ("FingerprintVerificationCard"@, "Fingerprint verification card"@),
    ]
}

/// Net2's token types as API name and label, in Net2's order.
pub fn token_types() -> (res: Vec<(&'static str, &'static str)>)
    ensures
        res@.len() == token_type_table().len(),
        forall|i: int| 0 <= i < res@.len() ==> (#[trigger] res@[i]).0@ == token_type_table()[i].0
            && res@[i].1@ == token_type_table()[i].1,
{
    let mut out: Vec<(&'static str, &'static str)> = Vec::new();
    out.push(("Unspecified", "Unspecified"));
    out.push(("ProxCard", "Proximity card"));
    out.push(("ProxIsoCard", "Proximity ISO card"));
    out.push(("ProxIsoCardWithoutMagstripe", "Proximity ISO card no magstripe"));
    out.push(("Keyfob", "Keyfob"));
    out.push(("HandsFreeToken", "Hands free token"));
    out.push(("HandsFreeKeyCard", "Hands free keycard"));
    out.push(("Watchprox", "Watchprox"));
    out.push(("FingerprintVerificationCard", "Fingerprint verification card"));
    out
}

/// The largest image file Net2 accepts, in bytes.
pub const MAX_IMAGE_BYTES: usize = 3 * 1024 * 1024 + 512 * 1024;
/// The most pixels an image may have.
pub const MAX_PIXELS: u64 = 40_000_000;
/// The longest side of a photo that gets converted. Plenty for an ID card.
pub const MAX_EDGE: u32 = 1200;

/// What a write that got no answer says: it may have landed.
pub const UNCERTAIN_WRITE: &'static str = "Net2 did not confirm this change. Check it in Net2 before trying again.";
/// What a refused access token says.
pub const NOT_SIGNED_IN: &'static str = "Not signed in to Net2. Connect again.";
/// What a refused sign-in says.
pub const WRONG_OPERATOR: &'static str = "Net2 didn't accept the operator name or password.";
/// What a server address that is not a bare https origin says.
pub const ORIGIN_RULE: &'static str = "Enter the Net2 server as https://name:port, without a path such as /api/v1.";
/// What a reply that cannot be read says.
pub const UNEXPECTED: &'static str = "Net2 sent a reply Tusk does not understand.";
/// What a portrait file name that gives no user ID says.
pub const NAME_RULE: &'static str = "Name the file with its Net2 user ID, like 12345.jpg, with no leading zeros.";

/// An owned copy of a string slice.
pub fn owned(s: &str) -> (res: String)
    ensures
        res@ == s@,
{
    s.to_owned()
}

/// A refusal by Net2, or no answer at all.
#[derive(Debug, PartialEq)]
pub struct Failure {
    pub message: String,
    /// The write may have landed; do not silently retry.
    pub uncertain: bool,
    /// Stop the run: the session is gone or the server is rate limiting.
    pub halt: bool,
    /// The access token was refused, so the session must be dropped.
    pub expired: bool,
}

impl Clone for Failure {
    fn clone(&self) -> (res: Self)
        ensures
            res == *self,
    {
        Failure {
            message: self.message.clone(),
            uncertain: self.uncertain,
            halt: self.halt,
            expired: self.expired,
        }
    }
}

/// A failure that does not end the session.
pub fn failure(message: String, uncertain: bool, halt: bool) -> (res: Failure)
    ensures
        res.message == message,
        res.uncertain == uncertain,
        res.halt == halt,
        !res.expired,
{
    Failure { message, uncertain, halt, expired: false }
}

/// The characters of "https://".
pub open spec fn https_text() -> Seq<char> {
    seq!['h', 't', 't', 'p', 's', ':', '/', '/']
}

/// Without trailing slashes.
pub open spec fn trim_slashes(s: Seq<char>) -> Seq<char>
    decreases s.len(),
{
    if s.len() > 0 && s.last() == '/' {
        trim_slashes(s.drop_last())
    } else {
        s
    }
}

/// Characters that have no place in a bare host and port.
pub open spec fn host_forbidden(c: char) -> bool {
    c == '/' || c == '?' || c == '#' || c == '@' || c == ' ' || c == '\\'
}

/// The host and port of a typed server address: trimmed, without trailing
/// slashes, after "https://", non-empty and without any path, query, fragment,
/// user, space or backslash.
pub open spec fn origin_host(value: Seq<char>) -> Option<Seq<char>> {
    let t = trim_slashes(trimmed(value));
    if t.len() >= 8 && t.take(8) == https_text() {
        let host = t.skip(8);
        if host.len() > 0 && forall|i: int| 0 <= i < host.len() ==> !host_forbidden(#[trigger] host[i]) {
            Some(host)
        } else {
            None
        }
    } else {
        None
    }
}

/// The origin a typed server address stands for: "https://" and its host,
/// lower-cased.
pub open spec fn origin_of(value: Seq<char>) -> Option<Seq<char>> {
    match origin_host(value) {
        Some(host) => Some(https_text() + lowercase(host)),
        None => None,
    }
}

fn https_chars() -> (res: Vec<char>)
    ensures
        res@ == https_text(),
{
    let mut v = Vec::new();
    v.push('h');
    v.push('t');
    v.push('t');
    v.push('p');
    v.push('s');
    v.push(':');
    v.push('/');
    v.push('/');
    assert(v@ =~= https_text());
    v
}

/// What a request that got no answer at all says, before the server is known.
pub const UNREACHABLE: &'static str = "Could not reach Net2. Check the server address, that this computer trusts the Net2 certificate, and that Chrome may reach devices on your network.";

/// Whether an origin is this computer itself.
pub open spec fn local_origin(origin: Seq<char>) -> bool {
    exists|i: int| 0 <= i < 3 && {
        let prefix = #[trigger] local_prefixes()[i];
        origin == prefix || (origin.len() > prefix.len() && origin.take(prefix.len() as int) == prefix && origin[prefix.len() as int] == ':')
    }
}

/// The origins that are this computer.
pub open spec fn local_prefixes() -> Seq<Seq<char>> {
    seq!["https://localhost"@, "https://127.0.0.1"@, "https://[::1]"@]
}

/// The message for a server that could not be reached. Which address failed
/// matters most: a server name can resolve to a VPN adapter that drops the
/// connection, while localhost always works on the Net2 server itself.
pub open spec fn unreachable_of(origin: Seq<char>) -> Seq<char> {
    "Could not reach "@ + origin + ". "@ + if local_origin(origin) {
        "Check that the Net2 services are running and LocalAPI is enabled."@
    } else {
        "Open that address in a browser tab to see why. On the Net2 server itself, use https://localhost:8443; a VPN can make the server's name unreachable."@
    }
}

/// Whether an origin is this prefix, or the prefix and a port.
fn is_prefixed(origin: &[char], prefix: &str) -> (res: bool)
    ensures
        res == (origin@ == prefix@ || (origin@.len() > prefix@.len() && origin@.take(prefix@.len() as int) == prefix@
            && origin@[prefix@.len() as int] == ':')),
{
    let p = chars_of(prefix);
    if crate::text::chars_equal(origin, p.as_slice()) {
        return true;
    }
    if origin.len() <= p.len() {
        return false;
    }
    let head = &origin[0..p.len()];
    assert(head@ =~= origin@.take(p@.len() as int));
    crate::text::chars_equal(head, p.as_slice()) && origin[p.len()] == ':'
}

/// The message for a server that could not be reached.
pub fn unreachable(origin: &str) -> (res: String)
    ensures
        res@ == unreachable_of(origin@),
{
    let o = chars_of(origin);
    let a = is_prefixed(o.as_slice(), "https://localhost");
    let b = is_prefixed(o.as_slice(), "https://127.0.0.1");
    let c = is_prefixed(o.as_slice(), "https://[::1]");
    let local = a || b || c;
    proof {
        let ps = local_prefixes();
        assert(ps[0] == "https://localhost"@ && ps[1] == "https://127.0.0.1"@ && ps[2] == "https://[::1]"@);
        if local_origin(origin@) {
            let i = choose|i: int| 0 <= i < 3 && {
                let prefix = #[trigger] local_prefixes()[i];
                origin@ == prefix || (origin@.len() > prefix.len() && origin@.take(prefix.len() as int) == prefix && origin@[prefix.len() as int] == ':')
            };
            assert(i == 0 || i == 1 || i == 2);
        }
        if a { assert(local_prefixes()[0] == "https://localhost"@); }
        if b { assert(local_prefixes()[1] == "https://127.0.0.1"@); }
        if c { assert(local_prefixes()[2] == "https://[::1]"@); }
    }
    let mut out: Vec<char> = Vec::new();
    append_str(&mut out, "Could not reach ");
    append_str(&mut out, origin);
    append_str(&mut out, ". ");
    if local {
        append_str(&mut out, "Check that the Net2 services are running and LocalAPI is enabled.");
    } else {
        append_str(&mut out, "Open that address in a browser tab to see why. On the Net2 server itself, use https://localhost:8443; a VPN can make the server's name unreachable.");
    }
    string_of(out.as_slice())
}

/// Whether a request can change Net2: one made as the signed-in operator
/// with any method but GET. Signing in changes nothing.
pub fn writes(signed_in: bool, method: &str) -> (res: bool)
    ensures
        res == (signed_in && method@ != "GET"@),
{
    let m = chars_of(method);
    let get = chars_of("GET");
    signed_in && !crate::text::chars_equal(m.as_slice(), get.as_slice())
}

/// A request that got no answer: a write may have landed, so it is
/// uncertain; anything else could not reach Net2. Either way the run stops.
pub fn no_answer(write: bool) -> (res: Failure)
    ensures
        res.message@ == (if write { UNCERTAIN_WRITE@ } else { UNREACHABLE@ }),
        res.uncertain == write,
        res.halt,
        !res.expired,
{
    let message = if write { owned(UNCERTAIN_WRITE) } else { owned(UNREACHABLE) };
    failure(message, write, true)
}

/// A sign-in message with a secret hidden, since some servers echo
/// submitted values in errors. Secrets of two bytes or fewer are left, as
/// they would hide ordinary words.
pub open spec fn hide_secret_of(message: Seq<char>, secret: Seq<char>, secret_bytes: nat) -> Seq<char> {
    if secret_bytes > 2 { replace_all(message, secret, "[hidden]"@) } else { message }
}

/// What a failed sign-in says: the password and client secret hidden, and
/// no answer at all explained for the server that was tried.
pub open spec fn sign_in_message_of(message: Seq<char>, origin: Seq<char>, password: Seq<char>, password_bytes: nat, secret: Seq<char>, secret_bytes: nat) -> Seq<char> {
    let hidden = hide_secret_of(hide_secret_of(message, password, password_bytes), secret, secret_bytes);
    if hidden == UNREACHABLE@ { unreachable_of(origin) } else { hidden }
}

fn hide_secret(message: Vec<char>, secret: &str) -> (res: Vec<char>)
    ensures
        res@ == hide_secret_of(message@, secret@, encode_utf8(secret@).len()),
{
    let bytes = secret.as_bytes();
    if bytes.len() > 2 {
        let pat = chars_of(secret);
        proof {
            if pat@.len() == 0 {
                assert(encode_utf8(secret@).len() == 0);
            }
        }
        let rep = chars_of("[hidden]");
        replace_all_chars(message.as_slice(), pat.as_slice(), rep.as_slice())
    } else {
        message
    }
}

/// What a failed sign-in says, given the failure's message, the server
/// tried, and the password and client secret that were sent.
pub fn sign_in_message(message: &str, origin: &str, password: &str, secret: &str) -> (res: String)
    ensures
        res@ == sign_in_message_of(message@, origin@, password@, encode_utf8(password@).len(), secret@, encode_utf8(secret@).len()),
{
    let once = hide_secret(chars_of(message), password);
    let twice = hide_secret(once, secret);
    let u = chars_of(UNREACHABLE);
    if crate::text::chars_equal(twice.as_slice(), u.as_slice()) {
        unreachable(origin)
    } else {
        string_of(twice.as_slice())
    }
}

/// The `key=value` parts of a form, one for each field whose value is not
/// empty, in order.
pub open spec fn form_parts(fields: Seq<(Seq<char>, Seq<char>)>) -> Seq<Seq<char>>
    decreases fields.len(),
{
    if fields.len() == 0 {
        Seq::empty()
    } else {
        let rest = form_parts(fields.drop_last());
        let (key, value) = fields.last();
        if value.len() == 0 { rest } else { rest.push(key + "="@ + value) }
    }
}

/// Form fields as the specifications see them.
pub open spec fn form_view(fields: Seq<(String, String)>) -> Seq<(Seq<char>, Seq<char>)> {
    fields.map_values(|f: (String, String)| (f.0@, f.1@))
}

/// The body of a form post: `key=value` for each field whose value is not
/// empty, joined by `&`. The values come already encoded.
pub fn form_body(fields: &Vec<(String, String)>) -> (res: String)
    ensures
        res@ == join_with(form_parts(form_view(fields@)), "&"@),
{
    let ghost fv = form_view(fields@);
    let mut out: Vec<char> = Vec::new();
    let mut any = false;
    let mut k: usize = 0;
    while k < fields.len()
        invariant
            k <= fields@.len(),
            fv == form_view(fields@),
            any == (form_parts(fv.take(k as int)).len() > 0),
            out@ == join_with(form_parts(fv.take(k as int)), "&"@),
        decreases fields@.len() - k,
    {
        let ghost parts = form_parts(fv.take(k as int));
        proof {
            assert(fv.take(k + 1).drop_last() =~= fv.take(k as int));
            assert(fv.take(k + 1).last() == (fields@[k as int].0@, fields@[k as int].1@));
        }
        let key = &fields[k].0;
        let value = &fields[k].1;
        if !value.as_str().is_empty() {
            let ghost before = out@;
            if any {
                out.push('&');
            }
            append_str(&mut out, key.as_str());
            out.push('=');
            append_str(&mut out, value.as_str());
            proof {
                let part = key@ + "="@ + value@;
                let next = parts.push(part);
                assert(next.drop_last() =~= parts);
                assert(next.last() == part);
                reveal_strlit("=");
                reveal_strlit("&");
                if !any {
                    assert(out@ =~= part);
                } else {
                    assert(out@ =~= before + "&"@ + part);
                }
            }
            any = true;
        } else {
            proof {
                assert(value@.len() == 0);
            }
        }
        k = k + 1;
    }
    assert(fv.take(fields@.len() as int) =~= fv);
    string_of(out.as_slice())
}

/// Where a department's users are listed; all users when none is chosen.
pub fn users_path(department: &str) -> (res: String)
    ensures
        res@ == (if department@.len() == 0 { "/users"@ } else { "/departments/"@ + department@ + "/users"@ }),
{
    if department.is_empty() {
        owned("/users")
    } else {
        let mut out: Vec<char> = Vec::new();
        append_str(&mut out, "/departments/");
        append_str(&mut out, department);
        append_str(&mut out, "/users");
        string_of(out.as_slice())
    }
}

/// Only a bare https origin, so credentials cannot go in clear text or to a
/// path that is not the API root.
pub fn parse_origin(value: &str) -> (res: Result<String, String>)
    ensures
        match origin_of(value@) {
            Some(o) => res matches Ok(r) && r@ == o,
            None => res matches Err(e) && e@ == ORIGIN_RULE@,
        },
{
    let typed = chars_of(value);
    let t0 = trim(typed.as_slice());
    let mut end = t0.len();
    assert(t0@.take(end as int) =~= t0@);
    while end > 0 && t0[end - 1] == '/'
        invariant
            end <= t0@.len(),
            trim_slashes(t0@) == trim_slashes(t0@.take(end as int)),
        decreases end,
    {
        assert(t0@.take(end as int).drop_last() =~= t0@.take(end - 1));
        end = end - 1;
    }
    let ghost t = t0@.take(end as int);
    assert(trim_slashes(t) == t);
    assert(t == trim_slashes(trimmed(value@)));
    let prefix = https_chars();
    if end < 8 {
        return Err(owned(ORIGIN_RULE));
    }
    let mut k: usize = 0;
    while k < 8
        invariant
            k <= 8 <= end <= t0@.len(),
            t == t0@.take(end as int),
            t == trim_slashes(trimmed(value@)),
            prefix@ == https_text(),
            forall|j: int| 0 <= j < k ==> t0@[j] == prefix@[j],
        decreases 8 - k,
    {
        if t0[k] != prefix[k] {
            assert(t.take(8)[k as int] != https_text()[k as int]);
            return Err(owned(ORIGIN_RULE));
        }
        k = k + 1;
    }
    assert(t.take(8) =~= https_text());
    if end == 8 {
        return Err(owned(ORIGIN_RULE));
    }
    let mut host: Vec<char> = Vec::new();
    let mut h: usize = 8;
    while h < end
        invariant
            8 <= h <= end <= t0@.len(),
            t == t0@.take(end as int),
            t == trim_slashes(trimmed(value@)),
            t.take(8) == https_text(),
            host@ == t.subrange(8, h as int),
            forall|j: int| 0 <= j < host@.len() ==> !host_forbidden(#[trigger] host@[j]),
        decreases end - h,
    {
        let c = t0[h];
        if c == '/' || c == '?' || c == '#' || c == '@' || c == ' ' || c == '\\' {
            assert(t.skip(8)[h - 8] == c);
            return Err(owned(ORIGIN_RULE));
        }
        host.push(c);
        assert(t.subrange(8, h + 1) =~= t.subrange(8, h as int).push(c));
        h = h + 1;
    }
    assert(host@ =~= t.skip(8));
    let lowered = lower(host.as_slice());
    let mut out = prefix;
    let mut m: usize = 0;
    while m < lowered.len()
        invariant
            m <= lowered@.len(),
            out@ == https_text() + lowered@.take(m as int),
        decreases lowered@.len() - m,
    {
        out.push(lowered[m]);
        assert(https_text() + lowered@.take(m + 1) =~= (https_text() + lowered@.take(m as int)).push(lowered@[m as int]));
        m = m + 1;
    }
    assert(lowered@.take(m as int) =~= lowered@);
    Ok(string_of(out.as_slice()))
}

/// An accepted origin is already clean: reading it again changes nothing, as
/// long as its host does not end in white space (which trimming would take
/// off the second time).
pub proof fn lemma_origin_is_clean(value: Seq<char>)
    requires
        origin_of(value) is Some,
        !is_white_space(origin_of(value).unwrap().last()),
    ensures
        origin_of(origin_of(value).unwrap()) == origin_of(value),
{
    let host = origin_host(value).unwrap();
    let o = https_text() + lowercase(host);
    assert(o.len() > 8);
    assert(trim_start(o) == o);
    assert(trim_end(o) == o);
    assert(o.last() == lowercase(host).last());
    assert(lowercase(host).last() != '/') by {
        assert(!host_forbidden(host.last()));
    }
    assert(trim_slashes(o) == o);
    assert(o.take(8) =~= https_text());
    let host2 = o.skip(8);
    assert(host2 =~= lowercase(host));
    assert forall|i: int| 0 <= i < host2.len() implies !host_forbidden(#[trigger] host2[i]) by {
        assert(!host_forbidden(host[i]));
    }
    assert(lowercase(lowercase(host)) =~= lowercase(host));
}

/// What an HTTP status means, before any details from the reply.
pub open spec fn status_message(status: u16, retry_after: Option<Seq<char>>) -> Seq<char> {
    if status == 400 {
        "Net2 refused the request."@
    } else if status == 401 {
        NOT_SIGNED_IN@
    } else if status == 403 {
        "Your Net2 operator or integration does not have permission."@
    } else if status == 404 {
        "Not found in Net2."@
    } else if status == 413 {
        "The image is larger than Net2 accepts."@
    } else if status == 429 {
        match retry_after {
            Some(seconds) => "Net2 is rate limiting. Try again after "@ + seconds + " seconds."@,
            None => "Net2 is rate limiting. Wait a minute, then try again."@,
        }
    } else {
        "Net2 returned HTTP "@ + decimal_text(status as nat) + "."@
    }
}

/// The keys a refusal's reply may explain itself under. Only these: a
/// sign-in reply can also carry tokens.
pub open spec fn error_keys() -> Seq<Seq<char>> {
    seq!["error"@, "error_description"@, "message"@, "Message"@]
}

/// The texts so far, with the value under one more key if it is text that
/// is not blank.
pub open spec fn add_detail(parts: Seq<Seq<char>>, value: Option<ScalarView>) -> Seq<Seq<char>> {
    match value {
        Some(ScalarView::Text(s)) => if trimmed(s).len() > 0 { parts.push(s) } else { parts },
        _ => parts,
    }
}

/// The texts under the keys, in the keys' order, the blank ones left out.
pub open spec fn detail_texts(fields: Seq<(Seq<char>, ScalarView)>, keys: Seq<Seq<char>>) -> Seq<Seq<char>>
    decreases keys.len(),
{
    if keys.len() == 0 {
        Seq::empty()
    } else {
        add_detail(detail_texts(fields, keys.drop_last()), lookup(fields, keys.last()))
    }
}

/// What a reply says about a refusal: its error texts joined with "; ", or
/// nothing when it is not a JSON object.
pub open spec fn reply_details(reply: JsonView) -> Seq<char> {
    match reply {
        JsonView::Object(fields) => join_with(detail_texts(fields, error_keys()), "; "@),
        _ => Seq::empty(),
    }
}

/// The hint added when Net2 names an invalid client.
pub open spec fn client_hint() -> Seq<char> {
    " Use the licence's ClientID attribute, not its Id."@
}

/// The whole message for a refusal, before it is cut to length.
pub open spec fn full_message(status: u16, retry_after: Option<Seq<char>>, reply: JsonView) -> Seq<char> {
    let details = reply_details(reply);
    let said = status_message(status, retry_after) + if details.len() > 0 {
        " Net2 says: "@ + trim_end_char(details, '.') + "."@
    } else {
        Seq::empty()
    };
    if contains(said, "invalid_client"@) { said + client_hint() } else { said }
}

/// At most the first 600 characters.
pub open spec fn cut_600(s: Seq<char>) -> Seq<char> {
    if s.len() <= 600 { s } else { s.take(600) }
}

/// What a refusal with this status and reply means: the message, whether a
/// write may have landed, whether to stop, and whether the session is gone.
pub open spec fn failure_of(status: u16, retry_after: Option<Seq<char>>, write: bool, reply: JsonView) -> (Seq<char>, bool, bool, bool) {
    (
        cut_600(full_message(status, retry_after, reply)),
        write && status >= 500,
        status == 401 || status == 403 || status == 429,
        status == 401,
    )
}

/// A write that Net2 refused with a server error (500 and up) may have
/// landed, so it is uncertain; a read never is, nor a write refused below
/// 500. Only a 401 means the session expired, and 401, 403 and 429 stop the
/// run.
pub proof fn lemma_server_errors_leave_writes_uncertain(status: u16, retry_after: Option<Seq<char>>, write: bool, reply: JsonView)
    ensures
        write && status >= 500 ==> failure_of(status, retry_after, write, reply).1,
        !write ==> !failure_of(status, retry_after, write, reply).1,
        status < 500 ==> !failure_of(status, retry_after, write, reply).1,
        failure_of(status, retry_after, write, reply).3 <==> status == 401,
        failure_of(status, retry_after, write, reply).2 <==> (status == 401 || status == 403 || status == 429),
{
}

/// A refusal's meaning depends on its reply only through the error fields,
/// so whatever else the reply carries, tokens among it, never reaches the
/// message; and the message is never longer than 600 characters.
pub proof fn lemma_failure_reads_only_error_fields(
    status: u16,
    retry_after: Option<Seq<char>>,
    write: bool,
    a: Seq<(Seq<char>, ScalarView)>,
    b: Seq<(Seq<char>, ScalarView)>,
)
    requires
        forall|i: int| 0 <= i < error_keys().len() ==> lookup(a, #[trigger] error_keys()[i]) == lookup(b, error_keys()[i]),
    ensures
        failure_of(status, retry_after, write, JsonView::Object(a)) == failure_of(status, retry_after, write, JsonView::Object(b)),
        failure_of(status, retry_after, write, JsonView::Object(a)).0.len() <= 600,
{
    let kv = error_keys();
    assert(kv.take(1).drop_last() =~= kv.take(0));
    assert(kv.take(2).drop_last() =~= kv.take(1));
    assert(kv.take(3).drop_last() =~= kv.take(2));
    assert(kv.take(4).drop_last() =~= kv.take(3));
    assert(kv.take(4) =~= kv);
    assert(lookup(a, kv[0]) == lookup(b, kv[0]));
    assert(lookup(a, kv[1]) == lookup(b, kv[1]));
    assert(lookup(a, kv[2]) == lookup(b, kv[2]));
    assert(lookup(a, kv[3]) == lookup(b, kv[3]));
    assert(kv.take(1).last() == kv[0] && kv.take(2).last() == kv[1]);
    assert(kv.take(3).last() == kv[2] && kv.take(4).last() == kv[3]);
    assert(detail_texts(a, kv.take(0)) == detail_texts(b, kv.take(0)));
    assert(detail_texts(a, kv.take(1)) == detail_texts(b, kv.take(1)));
    assert(detail_texts(a, kv.take(2)) == detail_texts(b, kv.take(2)));
    assert(detail_texts(a, kv.take(3)) == detail_texts(b, kv.take(3)));
    assert(detail_texts(a, kv) == detail_texts(b, kv));
}

/// Whether a failure is the one `failure_of` describes.
pub open spec fn is_failure(f: Failure, spec: (Seq<char>, bool, bool, bool)) -> bool {
    f.message@ == spec.0 && f.uncertain == spec.1 && f.halt == spec.2 && f.expired == spec.3
}

fn status_text(status: u16, retry_after: Option<&str>) -> (res: Vec<char>)
    ensures
        res@ == status_message(status, match retry_after {
            Some(s) => Some(s@),
            None => None,
        }),
{
    let mut out: Vec<char> = Vec::new();
    if status == 400 {
        append_str(&mut out, "Net2 refused the request.");
    } else if status == 401 {
        append_str(&mut out, NOT_SIGNED_IN);
    } else if status == 403 {
        append_str(&mut out, "Your Net2 operator or integration does not have permission.");
    } else if status == 404 {
        append_str(&mut out, "Not found in Net2.");
    } else if status == 413 {
        append_str(&mut out, "The image is larger than Net2 accepts.");
    } else if status == 429 {
        match retry_after {
            Some(seconds) => {
                append_str(&mut out, "Net2 is rate limiting. Try again after ");
                append_str(&mut out, seconds);
                append_str(&mut out, " seconds.");
            }
            None => append_str(&mut out, "Net2 is rate limiting. Wait a minute, then try again."),
        }
    } else {
        append_str(&mut out, "Net2 returned HTTP ");
        append_chars(&mut out, decimal_chars(status as u64).as_slice());
        append_str(&mut out, ".");
    }
    out
}

/// Add the text under one key, if it is not blank, to the joined details.
fn push_detail(out: &mut Vec<char>, count: usize, fields: &Vec<(String, Scalar)>, key: &str, Ghost(parts): Ghost<Seq<Seq<char>>>) -> (res: usize)
    requires
        count == parts.len(),
        count < 4,
        old(out)@ == join_with(parts, "; "@),
    ensures
        res == add_detail(parts, lookup(fields_view(fields@), key@)).len(),
        res <= count + 1,
        final(out)@ == join_with(add_detail(parts, lookup(fields_view(fields@), key@)), "; "@),
{
    let k = chars_of(key);
    match crate::json::get(fields, k.as_slice()) {
        Some(Scalar::Text(s)) => {
            let t = trim(chars_of(s.as_str()).as_slice());
            if t.len() > 0 {
                if count > 0 {
                    append_str(out, "; ");
                }
                append_str(out, s.as_str());
                proof {
                    assert(parts.push(s@).drop_last() =~= parts);
                    if parts.len() == 0 {
                        assert(old(out)@ =~= Seq::<char>::empty());
                        assert(final(out)@ =~= s@);
                    }
                }
                count + 1
            } else {
                count
            }
        }
        _ => count,
    }
}

/// The error texts of a reply joined with "; ".
fn details_text(reply: &Json) -> (res: Vec<char>)
    ensures
        res@ == reply_details(reply@),
{
    let mut out: Vec<char> = Vec::new();
    let fields = match reply {
        Json::Object(fields) => fields,
        _ => return out,
    };
    let ghost fv = fields_view(fields@);
    let ghost kv = error_keys();
    proof {
        assert(kv.take(0) =~= Seq::<Seq<char>>::empty());
        assert(kv.take(1).drop_last() =~= kv.take(0));
        assert(kv.take(2).drop_last() =~= kv.take(1));
        assert(kv.take(3).drop_last() =~= kv.take(2));
        assert(kv.take(4).drop_last() =~= kv.take(3));
        assert(kv.take(4) =~= kv);
    }
    let c = push_detail(&mut out, 0, fields, "error", Ghost(detail_texts(fv, kv.take(0))));
    let c = push_detail(&mut out, c, fields, "error_description", Ghost(detail_texts(fv, kv.take(1))));
    let c = push_detail(&mut out, c, fields, "message", Ghost(detail_texts(fv, kv.take(2))));
    let _ = push_detail(&mut out, c, fields, "Message", Ghost(detail_texts(fv, kv.take(3))));
    out
}

/// What a refusal means, from the HTTP status, any Retry-After header, whether
/// it answered a write, and the reply as read.
pub fn failure_for(status: u16, retry_after: Option<&str>, write: bool, reply: &Json) -> (res: Failure)
    ensures
        is_failure(res, failure_of(status, match retry_after {
            Some(s) => Some(s@),
            None => None,
        }, write, reply@)),
{
    let mut message = status_text(status, retry_after);
    let details = details_text(reply);
    if details.len() > 0 {
        append_str(&mut message, " Net2 says: ");
        append_chars(&mut message, trim_end_char_chars(details.as_slice(), '.').as_slice());
        append_str(&mut message, ".");
    }
    let ghost rv = match retry_after {
        Some(s) => Some(s@),
        None => None,
    };
    assert(message@ =~= status_message(status, rv) + if details@.len() > 0 {
        " Net2 says: "@ + trim_end_char(details@, '.') + "."@
    } else {
        Seq::empty()
    });
    let pat = chars_of("invalid_client");
    if contains_chars(message.as_slice(), pat.as_slice()) {
        append_str(&mut message, " Use the licence's ClientID attribute, not its Id.");
    }
    assert(message@ =~= full_message(status, rv, reply@));
    let n = if message.len() <= 600 { message.len() } else { 600 };
    let cut = string_of(&message.as_slice()[0..n]);
    proof {
        if message@.len() > 600 {
            assert(message@.subrange(0, 600) =~= message@.take(600));
        } else {
            assert(message@.subrange(0, n as int) =~= message@);
        }
    }
    Failure {
        message: cut,
        uncertain: write && status >= 500,
        halt: status == 401 || status == 403 || status == 429,
        expired: status == 401,
    }
}

/// What a refused request means. Only the reply's error fields go into the
/// message, never tokens it may also carry.
pub fn status_failure(status: u16, retry_after: Option<&str>, write: bool, body: &str) -> (res: Failure)
    ensures
        is_failure(res, failure_of(status, match retry_after {
            Some(s) => Some(s@),
            None => None,
        }, write, json_reply(body@))),
{
    let reply = json_text(body);
    failure_for(status, retry_after, write, &reply)
}

/// A 401 while signing in means the operator, not an expired session: its
/// "not signed in" sentence becomes "wrong operator". Anything else is kept.
pub fn sign_in_failure(problem: Failure) -> (res: Failure)
    ensures
        res.uncertain == problem.uncertain,
        res.halt == problem.halt,
        res.expired == problem.expired,
        problem.expired ==> res.message@ == replace_first(problem.message@, NOT_SIGNED_IN@, WRONG_OPERATOR@),
        !problem.expired ==> res == problem,
{
    if problem.expired {
        let message = chars_of(problem.message.as_str());
        let pat = chars_of(NOT_SIGNED_IN);
        let rep = chars_of(WRONG_OPERATOR);
        let replaced = replace_first_chars(message.as_slice(), pat.as_slice(), rep.as_slice());
        Failure {
            message: string_of(replaced.as_slice()),
            uncertain: problem.uncertain,
            halt: problem.halt,
            expired: problem.expired,
        }
    } else {
        problem
    }
}

/// A Net2 user as the queue and the portrait check read it.
#[derive(Debug, PartialEq)]
pub struct User {
    pub id: i32,
    pub first: String,
    pub middle: String,
    pub last: String,
    pub has_image: bool,
}

impl Clone for User {
    fn clone(&self) -> (res: Self)
        ensures
            res == *self,
    {
        User {
            id: self.id,
            first: self.first.clone(),
            middle: self.middle.clone(),
            last: self.last.clone(),
            has_image: self.has_image,
        }
    }
}

/// A user as the specifications see it.
pub struct UserView {
    pub id: i32,
    pub first: Seq<char>,
    pub middle: Seq<char>,
    pub last: Seq<char>,
    pub has_image: bool,
}

impl View for User {
    type V = UserView;

    open spec fn view(&self) -> UserView {
        UserView { id: self.id, first: self.first@, middle: self.middle@, last: self.last@, has_image: self.has_image }
    }
}

/// The characters of "(No name)".
pub open spec fn no_name_text() -> Seq<char> {
    seq!['(', 'N', 'o', ' ', 'n', 'a', 'm', 'e', ')']
}

/// The characters of "(No name)".
pub fn no_name_chars() -> (res: Vec<char>)
    ensures
        res@ == no_name_text(),
{
    let mut v = Vec::new();
    v.push('(');
    v.push('N');
    v.push('o');
    v.push(' ');
    v.push('n');
    v.push('a');
    v.push('m');
    v.push('e');
    v.push(')');
    assert(v@ =~= no_name_text());
    v
}

/// First, middle and last name, the empty ones left out, or "(No name)".
pub open spec fn user_name(first: Seq<char>, middle: Seq<char>, last: Seq<char>) -> Seq<char> {
    let name = join_nonempty(seq![first, middle, last]);
    if name.len() == 0 { no_name_text() } else { name }
}

impl User {
    /// First, middle and last name, the empty ones left out, or "(No name)".
    pub fn name(&self) -> (res: String)
        ensures
            res@ == user_name(self.first@, self.middle@, self.last@),
    {
        let mut out: Vec<char> = Vec::new();
        let first = chars_of(self.first.as_str());
        let middle = chars_of(self.middle.as_str());
        let last = chars_of(self.last.as_str());
        let ghost parts = seq![self.first@, self.middle@, self.last@];
        proof {
            assert(parts.drop_last().drop_last().drop_last() =~= Seq::<Seq<char>>::empty());
            assert(join_nonempty(Seq::<Seq<char>>::empty()) =~= Seq::<char>::empty());
        }
        join_push(&mut out, first.as_slice());
        proof {
            assert(parts.drop_last().drop_last() =~= seq![self.first@]);
            assert(seq![self.first@].drop_last() =~= Seq::<Seq<char>>::empty());
            assert(out@ == join_nonempty(seq![self.first@]));
        }
        join_push(&mut out, middle.as_slice());
        proof {
            assert(parts.drop_last() =~= seq![self.first@, self.middle@]);
            assert(seq![self.first@, self.middle@].drop_last() =~= seq![self.first@]);
            assert(out@ == join_nonempty(seq![self.first@, self.middle@]));
        }
        join_push(&mut out, last.as_slice());
        proof {
            assert(out@ == join_nonempty(parts));
        }
        if out.len() == 0 {
            string_of(no_name_chars().as_slice())
        } else {
            string_of(out.as_slice())
        }
    }
}

/// A user record: a whole-number `id` that fits in 32 bits and a flag
/// `hasImage` are required; the names are trimmed text, empty when missing.
/// Keys may be camelCase or PascalCase.
pub open spec fn user_fields(fields: Seq<(Seq<char>, ScalarView)>) -> Option<UserView> {
    match (field_of(fields, "id"@), field_of(fields, "hasImage"@)) {
        (Some(ScalarView::Number(Some(n))), Some(ScalarView::Flag(b))) => if i32::MIN <= n <= i32::MAX {
            Some(UserView {
                id: n as i32,
                first: text_of(fields, "firstName"@),
                middle: text_of(fields, "middleName"@),
                last: text_of(fields, "lastName"@),
                has_image: b,
            })
        } else {
            None
        },
        _ => None,
    }
}

/// The user a reply holds when it is the one asked for.
pub open spec fn user_reply(reply: JsonView, expected: i32) -> Option<UserView> {
    match reply {
        JsonView::Object(fields) => match user_fields(fields) {
            Some(u) => if u.id == expected { Some(u) } else { None },
            None => None,
        },
        _ => None,
    }
}

/// A user read from a reply is always the one asked for, so a proxy or a
/// wrong path cannot pass off another record as theirs.
pub proof fn lemma_user_is_the_one_asked_for(reply: JsonView, expected: i32)
    ensures
        user_reply(reply, expected) matches Some(u) ==> u.id == expected,
{
}

/// Each name of a user read from a record is the trimmed text under its own
/// key: the camelCase key (`firstName`, `middleName`, `lastName`), or the
/// PascalCase one where that is missing; empty when neither holds text.
pub proof fn lemma_user_names_come_from_their_keys(fields: Seq<(Seq<char>, ScalarView)>)
    ensures
        user_fields(fields) matches Some(u) ==> {
            &&& name_under(fields, "firstName"@, "FirstName"@, u.first)
            &&& name_under(fields, "middleName"@, "MiddleName"@, u.middle)
            &&& name_under(fields, "lastName"@, "LastName"@, u.last)
        },
{
    reveal_strlit("firstName");
    reveal_strlit("FirstName");
    reveal_strlit("middleName");
    reveal_strlit("MiddleName");
    reveal_strlit("lastName");
    reveal_strlit("LastName");
    assert(crate::json::pascal("firstName"@) =~= "FirstName"@);
    assert(crate::json::pascal("middleName"@) =~= "MiddleName"@);
    assert(crate::json::pascal("lastName"@) =~= "LastName"@);
}

/// Whether `name` is what a record gives under `key`, or under `other` when
/// `key` is missing: the text trimmed, or empty when it is not text.
pub open spec fn name_under(fields: Seq<(Seq<char>, ScalarView)>, key: Seq<char>, other: Seq<char>, name: Seq<char>) -> bool {
    match lookup(fields, key) {
        Some(ScalarView::Text(s)) => name == trimmed(s),
        Some(_) => name.len() == 0,
        None => match lookup(fields, other) {
            Some(ScalarView::Text(s)) => name == trimmed(s),
            _ => name.len() == 0,
        },
    }
}

/// The users of a list, when every entry is a user record.
pub open spec fn users_from(entries: Seq<Option<Seq<(Seq<char>, ScalarView)>>>) -> Option<Seq<UserView>>
    decreases entries.len(),
{
    if entries.len() == 0 {
        Some(Seq::empty())
    } else {
        match (users_from(entries.drop_last()), entries.last()) {
            (Some(us), Some(fields)) => match user_fields(fields) {
                Some(u) => Some(us.push(u)),
                None => None,
            },
            _ => None,
        }
    }
}

/// The users a reply lists, or `None` when it is not a list of user records.
pub open spec fn users_reply(reply: JsonView) -> Option<Seq<UserView>> {
    match reply {
        JsonView::List(entries) => users_from(entries),
        _ => None,
    }
}

/// The whole number a value holds, when it fits in 32 bits.
fn small_number(value: Option<&Scalar>) -> (res: Option<i32>)
    ensures
        match value {
            Some(Scalar::Number(Some(n))) => if i32::MIN <= *n <= i32::MAX { res == Some(*n as i32) } else { res is None },
            _ => res is None,
        },
{
    match value {
        Some(Scalar::Number(Some(n))) => {
            if i32::MIN as i64 <= *n && *n <= i32::MAX as i64 {
                Some(*n as i32)
            } else {
                None
            }
        }
        _ => None,
    }
}

impl User {
    /// The user a record describes, if it is one.
    pub fn from_json(fields: &Vec<(String, Scalar)>) -> (res: Option<User>)
        ensures
            match user_fields(fields_view(fields@)) {
                Some(u) => res matches Some(r) && r@ == u,
                None => res is None,
            },
    {
        let id = match small_number(field(fields, "id")) {
            Some(id) => id,
            None => return None,
        };
        let has_image = match field(fields, "hasImage") {
            Some(Scalar::Flag(b)) => *b,
            _ => return None,
        };
        Some(User {
            id,
            first: string_of(text(fields, "firstName").as_slice()),
            middle: string_of(text(fields, "middleName").as_slice()),
            last: string_of(text(fields, "lastName").as_slice()),
            has_image,
        })
    }
}

fn unexpected() -> (res: String)
    ensures
        res@ == UNEXPECTED@,
{
    owned(UNEXPECTED)
}

/// The user in a reply, which must be the one asked for, so that a proxy or
/// a wrong path cannot pass off another record as theirs.
pub fn user_in(reply: &Json, expected: i32) -> (res: Result<User, String>)
    ensures
        match user_reply(reply@, expected) {
            Some(u) => res matches Ok(r) && r@ == u,
            None => res matches Err(e) && e@ == UNEXPECTED@,
        },
{
    match reply {
        Json::Object(fields) => match User::from_json(fields) {
            Some(u) => if u.id == expected { Ok(u) } else { Err(unexpected()) },
            None => Err(unexpected()),
        },
        _ => Err(unexpected()),
    }
}

/// The user in a reply body; see `user_in`.
pub fn read_user(body: &str, expected: i32) -> (res: Result<User, String>)
    ensures
        match user_reply(json_reply(body@), expected) {
            Some(u) => res matches Ok(r) && r@ == u,
            None => res matches Err(e) && e@ == UNEXPECTED@,
        },
{
    let reply = json_text(body);
    user_in(&reply, expected)
}

/// The users in a reply, in Net2's order. A record that cannot be read fails
/// the whole list rather than quietly leaving someone out of the queue.
pub fn users_in(reply: &Json) -> (res: Result<Vec<User>, String>)
    ensures
        match users_reply(reply@) {
            Some(us) => res matches Ok(v) && v@.map_values(|u: User| u@) == us,
            None => res matches Err(e) && e@ == UNEXPECTED@,
        },
{
    let entries = match reply {
        Json::List(entries) => entries,
        _ => return Err(unexpected()),
    };
    let ghost ev = match reply@ {
        JsonView::List(e) => e,
        _ => Seq::empty(),
    };
    assert(ev.len() == entries@.len());
    assert(forall|i: int| 0 <= i < ev.len() ==> #[trigger] ev[i] == crate::json::entry_view(entries@[i]));
    let n = entries.len();
    let mut users: Vec<User> = Vec::new();
    let mut k: usize = 0;
    while k < n
        invariant
            k <= n == entries@.len(),
            ev.len() == n,
            forall|i: int| 0 <= i < ev.len() ==> #[trigger] ev[i] == crate::json::entry_view(entries@[i]),
            users_reply(reply@) == users_from(ev),
            users_from(ev.take(k as int)) == Some(users@.map_values(|u: User| u@)),
        decreases n - k,
    {
        proof {
            assert(ev.take(k + 1).drop_last() =~= ev.take(k as int));
            assert(ev.take(k + 1).last() == crate::json::entry_view(entries@[k as int]));
        }
        let user = match &entries[k] {
            Some(fields) => match User::from_json(fields) {
                Some(u) => u,
                None => {
                    proof { lemma_users_from_fails(ev, k as int); }
                    return Err(unexpected());
                }
            },
            None => {
                proof { lemma_users_from_fails(ev, k as int); }
                return Err(unexpected());
            }
        };
        let ghost before = users@.map_values(|u: User| u@);
        users.push(user);
        assert(users@.map_values(|u: User| u@) =~= before.push(user@));
        k = k + 1;
    }
    assert(ev.take(n as int) =~= ev);
    Ok(users)
}

/// A list that fails to read at one entry fails as a whole.
proof fn lemma_users_from_fails(entries: Seq<Option<Seq<(Seq<char>, ScalarView)>>>, k: int)
    requires
        0 <= k < entries.len(),
        users_from(entries.take(k + 1)) is None,
    ensures
        users_from(entries) is None,
    decreases entries.len() - k,
{
    if k + 1 < entries.len() {
        assert(entries.take(k + 2).drop_last() =~= entries.take(k + 1));
        lemma_users_from_fails(entries, k + 1);
    } else {
        assert(entries.take(k + 1) =~= entries);
    }
}

/// The users in a reply body; see `users_in`.
pub fn read_users(body: &str) -> (res: Result<Vec<User>, String>)
    ensures
        match users_reply(json_reply(body@)) {
            Some(us) => res matches Ok(v) && v@.map_values(|u: User| u@) == us,
            None => res matches Err(e) && e@ == UNEXPECTED@,
        },
{
    let reply = json_text(body);
    users_in(&reply)
}

/// Whether a token can go into an Authorization header: not empty, and
/// only visible ASCII (`!` to `~`), since anything else makes the browser
/// throw.
pub open spec fn usable_token(t: Seq<char>) -> bool {
    t.len() > 0 && forall|i: int| 0 <= i < t.len() ==> '!' <= #[trigger] t[i] && t[i] <= '~'
}

/// The access token of a sign-in reply, when it is usable.
pub open spec fn token_reply(reply: JsonView) -> Option<Seq<char>> {
    match reply {
        JsonView::Object(fields) => match lookup(fields, "access_token"@) {
            Some(ScalarView::Text(t)) => if usable_token(t) { Some(t) } else { None },
            _ => None,
        },
        _ => None,
    }
}

/// The access token in a sign-in reply, when it is usable.
#[verifier::loop_isolation(false)]
pub fn token_in(reply: &Json) -> (res: Option<String>)
    ensures
        match token_reply(reply@) {
            Some(t) => res matches Some(r) && r@ == t,
            None => res is None,
        },
{
    let fields = match reply {
        Json::Object(fields) => fields,
        _ => return None,
    };
    let key = chars_of("access_token");
    let token = match crate::json::get(fields, key.as_slice()) {
        Some(Scalar::Text(t)) => t,
        _ => return None,
    };
    let chars = chars_of(token.as_str());
    if chars.len() == 0 {
        return None;
    }
    let mut k: usize = 0;
    while k < chars.len()
        invariant
            k <= chars@.len(),
            forall|i: int| 0 <= i < k ==> '!' <= #[trigger] chars@[i] && chars@[i] <= '~',
        decreases chars@.len() - k,
    {
        let c = chars[k];
        if !('!' <= c && c <= '~') {
            assert(!('!' <= token@[k as int] && token@[k as int] <= '~'));
            return None;
        }
        k = k + 1;
    }
    Some(token.clone())
}

/// The sign-in reply's access token. It goes into an Authorization header.
pub fn access_token(reply: &str) -> (res: Option<String>)
    ensures
        match token_reply(json_reply(reply@)) {
            Some(t) => res matches Some(r) && r@ == t,
            None => res is None,
        },
{
    let parsed = json_text(reply);
    token_in(&parsed)
}

/// The card numbers in a list of token records: those not marked lost, each
/// trimmed, the empty ones left out.
pub open spec fn cards_from(entries: Seq<Option<Seq<(Seq<char>, ScalarView)>>>) -> Seq<Seq<char>>
    decreases entries.len(),
{
    if entries.len() == 0 {
        Seq::empty()
    } else {
        let rest = cards_from(entries.drop_last());
        match entries.last() {
            Some(fields) => {
                let lost = field_of(fields, "isLost"@) == Some(ScalarView::Flag(true));
                let value = text_of(fields, "tokenValue"@);
                if !lost && value.len() > 0 { rest.push(value) } else { rest }
            },
            None => rest,
        }
    }
}

/// The card numbers a reply lists, or `None` when it is not a list.
pub open spec fn cards_reply(reply: JsonView) -> Option<Seq<Seq<char>>> {
    match reply {
        JsonView::List(entries) => Some(cards_from(entries)),
        _ => None,
    }
}

/// Card numbers the user holds that are not marked lost.
pub fn cards_in(reply: &Json) -> (res: Result<Vec<String>, String>)
    ensures
        match cards_reply(reply@) {
            Some(cards) => res matches Ok(v) && v.deep_view() == cards,
            None => res matches Err(e) && e@ == UNEXPECTED@,
        },
{
    let entries = match reply {
        Json::List(entries) => entries,
        _ => return Err(unexpected()),
    };
    let ghost ev = match reply@ {
        JsonView::List(e) => e,
        _ => Seq::empty(),
    };
    assert(ev.len() == entries@.len());
    assert(forall|i: int| 0 <= i < ev.len() ==> #[trigger] ev[i] == crate::json::entry_view(entries@[i]));
    let n = entries.len();
    let mut cards: Vec<String> = Vec::new();
    let mut k: usize = 0;
    while k < n
        invariant
            k <= n == entries@.len(),
            ev.len() == n,
            forall|i: int| 0 <= i < ev.len() ==> #[trigger] ev[i] == crate::json::entry_view(entries@[i]),
            cards_reply(reply@) == Some(cards_from(ev)),
            cards_from(ev.take(k as int)) == cards.deep_view(),
        decreases n - k,
    {
        proof {
            assert(ev.take(k + 1).drop_last() =~= ev.take(k as int));
            assert(ev.take(k + 1).last() == crate::json::entry_view(entries@[k as int]));
        }
        match &entries[k] {
            Some(fields) => {
                let lost = match field(fields, "isLost") {
                    Some(Scalar::Flag(b)) => *b,
                    _ => false,
                };
                let value = text(fields, "tokenValue");
                if !lost && value.len() > 0 {
                    let ghost before = cards.deep_view();
                    cards.push(string_of(value.as_slice()));
                    assert(cards.deep_view() =~= before.push(value@));
                }
            }
            None => {}
        }
        k = k + 1;
    }
    assert(ev.take(n as int) =~= ev);
    Ok(cards)
}

/// Card numbers in a reply body; see `cards_in`.
pub fn read_cards(body: &str) -> (res: Result<Vec<String>, String>)
    ensures
        match cards_reply(json_reply(body@)) {
            Some(cards) => res matches Ok(v) && v.deep_view() == cards,
            None => res matches Err(e) && e@ == UNEXPECTED@,
        },
{
    let reply = json_text(body);
    cards_in(&reply)
}

/// A department record: an `id` that fits in 32 bits is required; its name
/// is trimmed text, empty when missing.
pub open spec fn department_fields(entry: Option<Seq<(Seq<char>, ScalarView)>>) -> Option<(i32, Seq<char>)> {
    match entry {
        Some(fields) => match field_of(fields, "id"@) {
            Some(ScalarView::Number(Some(n))) => if i32::MIN <= n <= i32::MAX {
                Some((n as i32, text_of(fields, "name"@)))
            } else {
                None
            },
            _ => None,
        },
        None => None,
    }
}

/// The departments of a list, in its order, the entries that are not
/// department records left out.
pub open spec fn departments_from(entries: Seq<Option<Seq<(Seq<char>, ScalarView)>>>) -> Seq<(i32, Seq<char>)>
    decreases entries.len(),
{
    if entries.len() == 0 {
        Seq::empty()
    } else {
        let rest = departments_from(entries.drop_last());
        match department_fields(entries.last()) {
            Some(d) => rest.push(d),
            None => rest,
        }
    }
}

/// What departments sort by: the name in lowercase.
pub open spec fn name_key(d: (i32, Seq<char>)) -> Seq<char> {
    unicode_lowercase(d.1)
}

/// Where a department goes among departments already in order: after every
/// one whose key does not sort after its own.
pub open spec fn insert_position(sorted: Seq<(i32, Seq<char>)>, d: (i32, Seq<char>)) -> int
    decreases sorted.len(),
{
    if sorted.len() == 0 {
        0
    } else if text_less(name_key(d), name_key(sorted.last())) {
        insert_position(sorted.drop_last(), d)
    } else {
        sorted.len() as int
    }
}

/// The departments sorted by lowercase name, those with equal keys kept in
/// the order they came in.
pub open spec fn sort_by_name(ds: Seq<(i32, Seq<char>)>) -> Seq<(i32, Seq<char>)>
    decreases ds.len(),
{
    if ds.len() == 0 {
        Seq::empty()
    } else {
        let sorted = sort_by_name(ds.drop_last());
        sorted.insert(insert_position(sorted, ds.last()), ds.last())
    }
}

/// The departments a reply lists, sorted by name; none when it is not a list.
pub open spec fn departments_reply(reply: JsonView) -> Seq<(i32, Seq<char>)> {
    match reply {
        JsonView::List(entries) => sort_by_name(departments_from(entries)),
        _ => Seq::empty(),
    }
}

/// Departments as the specifications see them.
pub open spec fn departments_view(ds: Seq<(i32, String)>) -> Seq<(i32, Seq<char>)> {
    ds.map_values(|d: (i32, String)| (d.0, d.1@))
}

proof fn lemma_insert_position_bounds(sorted: Seq<(i32, Seq<char>)>, d: (i32, Seq<char>))
    ensures
        0 <= insert_position(sorted, d) <= sorted.len(),
    decreases sorted.len(),
{
    if sorted.len() > 0 {
        lemma_insert_position_bounds(sorted.drop_last(), d);
    }
}

proof fn lemma_sort_len(ds: Seq<(i32, Seq<char>)>)
    ensures
        sort_by_name(ds).len() == ds.len(),
    decreases ds.len(),
{
    if ds.len() > 0 {
        lemma_sort_len(ds.drop_last());
        lemma_insert_position_bounds(sort_by_name(ds.drop_last()), ds.last());
    }
}

/// Whether departments are in order of their lowercase names.
pub open spec fn sorted_by_name(s: Seq<(i32, Seq<char>)>) -> bool {
    forall|i: int, j: int| 0 <= i < j < s.len() ==> !text_less(#[trigger] name_key(s[j]), #[trigger] name_key(s[i]))
}

/// Where a department goes: everything from there on sorts after it, and
/// what comes just before does not.
proof fn lemma_insert_position(sorted: Seq<(i32, Seq<char>)>, d: (i32, Seq<char>))
    ensures
        forall|i: int| insert_position(sorted, d) <= i < sorted.len() ==> text_less(name_key(d), #[trigger] name_key(sorted[i])),
        insert_position(sorted, d) > 0 ==> !text_less(name_key(d), name_key(sorted[insert_position(sorted, d) - 1])),
    decreases sorted.len(),
{
    if sorted.len() > 0 && text_less(name_key(d), name_key(sorted.last())) {
        let rest = sorted.drop_last();
        lemma_insert_position(rest, d);
        lemma_insert_position_bounds(rest, d);
        assert forall|i: int| insert_position(sorted, d) <= i < sorted.len() implies text_less(name_key(d), #[trigger] name_key(sorted[i])) by {
            if i < sorted.len() - 1 {
                assert(sorted[i] == rest[i]);
            }
        }
        if insert_position(sorted, d) > 0 {
            assert(sorted[insert_position(sorted, d) - 1] == rest[insert_position(rest, d) - 1]);
        }
    }
}

/// Departments come out in order of their lowercase names.
pub proof fn lemma_departments_sorted(ds: Seq<(i32, Seq<char>)>)
    ensures
        sorted_by_name(sort_by_name(ds)),
        sort_by_name(ds).len() == ds.len(),
    decreases ds.len(),
{
    lemma_sort_len(ds);
    if ds.len() > 0 {
        let s = sort_by_name(ds.drop_last());
        let d = ds.last();
        lemma_departments_sorted(ds.drop_last());
        lemma_insert_position(s, d);
        lemma_insert_position_bounds(s, d);
        let p = insert_position(s, d);
        let t = s.insert(p, d);
        assert(t == sort_by_name(ds));
        assert forall|i: int, j: int| 0 <= i < j < t.len() implies !text_less(#[trigger] name_key(t[j]), #[trigger] name_key(t[i])) by {
            if j < p {
                assert(t[i] == s[i] && t[j] == s[j]);
            } else if j == p {
                assert(t[j] == d);
                assert(t[i] == s[i]);
                if i < p - 1 {
                    assert(!text_less(name_key(s[p - 1]), name_key(s[i])));
                    lemma_text_not_less_transitive(name_key(s[i]), name_key(s[p - 1]), name_key(d));
                }
            } else if i == p {
                assert(t[i] == d);
                assert(t[j] == s[j - 1]);
                lemma_text_less_asymmetric(name_key(d), name_key(s[j - 1]));
            } else if i < p {
                assert(t[i] == s[i] && t[j] == s[j - 1]);
            } else {
                assert(t[i] == s[i - 1] && t[j] == s[j - 1]);
            }
        }
    }
}

/// Sorting departments neither adds nor loses any: the result holds the
/// same departments, each as many times.
pub proof fn lemma_departments_kept(ds: Seq<(i32, Seq<char>)>)
    ensures
        sort_by_name(ds).to_multiset() =~= ds.to_multiset(),
    decreases ds.len(),
{
    broadcast use vstd::seq_lib::group_to_multiset_ensures;
    if ds.len() == 0 {
        assert(sort_by_name(ds) =~= ds);
    } else {
        let rest = ds.drop_last();
        let d = ds.last();
        lemma_departments_kept(rest);
        let s = sort_by_name(rest);
        let p = insert_position(s, d);
        lemma_insert_position_bounds(s, d);
        let t = s.insert(p, d);
        assert(t.remove(p) =~= s);
        assert(t[p] == d);
        assert(t.contains(d));
        assert(t.to_multiset() =~= s.to_multiset().insert(d)) by {
            assert(t.to_multiset().remove(d) =~= s.to_multiset());
            assert(t.to_multiset().count(d) > 0);
        }
        assert(rest.push(d) =~= ds);
    }
}

/// A department beside the text it sorts by.
pub type Keyed = ((i32, Seq<char>), Seq<char>);

/// Where a keyed department goes among keyed departments already in order:
/// after every one whose key does not sort after its own.
pub open spec fn keyed_position(sorted: Seq<Keyed>, item: Keyed) -> int
    decreases sorted.len(),
{
    if sorted.len() == 0 {
        0
    } else if text_less(item.1, sorted.last().1) {
        keyed_position(sorted.drop_last(), item)
    } else {
        sorted.len() as int
    }
}

/// Keyed departments sorted by key, those with equal keys kept in the order
/// they came in.
pub open spec fn sort_keyed(items: Seq<Keyed>) -> Seq<Keyed>
    decreases items.len(),
{
    if items.len() == 0 {
        Seq::empty()
    } else {
        let sorted = sort_keyed(items.drop_last());
        sorted.insert(keyed_position(sorted, items.last()), items.last())
    }
}

/// Each department beside the key of the same index.
pub open spec fn paired(ds: Seq<(i32, Seq<char>)>, keys: Seq<Seq<char>>) -> Seq<Keyed> {
    Seq::new(ds.len(), |i: int| (ds[i], keys[i]))
}

/// The departments sorted by the keys given beside them.
pub open spec fn sort_by_keys_of(ds: Seq<(i32, Seq<char>)>, keys: Seq<Seq<char>>) -> Seq<(i32, Seq<char>)> {
    sort_keyed(paired(ds, keys)).map_values(|x: Keyed| x.0)
}

/// Texts as the specifications see them.
pub open spec fn texts_view(keys: Seq<String>) -> Seq<Seq<char>> {
    keys.map_values(|k: String| k@)
}

/// Whether each key is its department's lowercase name.
pub open spec fn keys_are_names(items: Seq<Keyed>) -> bool {
    forall|i: int| 0 <= i < items.len() ==> #[trigger] items[i].1 == name_key(items[i].0)
}

proof fn lemma_keyed_position_bounds(sorted: Seq<Keyed>, item: Keyed)
    ensures
        0 <= keyed_position(sorted, item) <= sorted.len(),
    decreases sorted.len(),
{
    if sorted.len() > 0 {
        lemma_keyed_position_bounds(sorted.drop_last(), item);
    }
}

/// With keys that are the lowercase names, a keyed department goes where the
/// department itself would.
proof fn lemma_positions_agree(sorted: Seq<Keyed>, item: Keyed)
    requires
        keys_are_names(sorted),
        item.1 == name_key(item.0),
    ensures
        keyed_position(sorted, item) == insert_position(sorted.map_values(|x: Keyed| x.0), item.0),
    decreases sorted.len(),
{
    if sorted.len() > 0 {
        let rest = sorted.drop_last();
        assert(rest.map_values(|x: Keyed| x.0) =~= sorted.map_values(|x: Keyed| x.0).drop_last());
        assert(sorted.last().1 == name_key(sorted.last().0));
        lemma_positions_agree(rest, item);
    }
}

/// Sorting by the lowercase names given as keys is sorting by name.
proof fn lemma_sort_keyed_by_name(items: Seq<Keyed>)
    requires
        keys_are_names(items),
    ensures
        sort_keyed(items).len() == items.len(),
        keys_are_names(sort_keyed(items)),
        sort_keyed(items).map_values(|x: Keyed| x.0) == sort_by_name(items.map_values(|x: Keyed| x.0)),
    decreases items.len(),
{
    if items.len() > 0 {
        let rest = items.drop_last();
        let x = items.last();
        assert(keys_are_names(rest)) by {
            assert forall|i: int| 0 <= i < rest.len() implies #[trigger] rest[i].1 == name_key(rest[i].0) by {
                assert(rest[i] == items[i]);
            }
        }
        lemma_sort_keyed_by_name(rest);
        let s = sort_keyed(rest);
        assert(x.1 == name_key(x.0));
        lemma_positions_agree(s, x);
        lemma_keyed_position_bounds(s, x);
        let p = keyed_position(s, x);
        let t = s.insert(p, x);
        assert(t == sort_keyed(items));
        let names = items.map_values(|y: Keyed| y.0);
        assert(names.drop_last() =~= rest.map_values(|y: Keyed| y.0));
        assert(names.last() == x.0);
        assert(t.map_values(|y: Keyed| y.0) =~= s.map_values(|y: Keyed| y.0).insert(p, x.0));
        assert forall|i: int| 0 <= i < t.len() implies #[trigger] t[i].1 == name_key(t[i].0) by {
            if i < p {
                assert(t[i] == s[i]);
            } else if i > p {
                assert(t[i] == s[i - 1]);
            }
        }
    }
}

/// The departments sorted by the keys given beside them (the key of `ds[i]`
/// is `keys[i]`), those with equal keys kept in the order they came in.
pub fn sort_by_keys(ds: &Vec<(i32, String)>, keys: &Vec<String>) -> (res: Vec<(i32, String)>)
    requires
        ds.len() == keys.len(),
    ensures
        departments_view(res@) == sort_by_keys_of(departments_view(ds@), texts_view(keys@)),
{
    let ghost items = paired(departments_view(ds@), texts_view(keys@));
    let n = ds.len();
    let mut out: Vec<(i32, String)> = Vec::new();
    let mut out_keys: Vec<Vec<char>> = Vec::new();
    let mut k: usize = 0;
    while k < n
        invariant
            k <= n == ds@.len() == keys@.len(),
            items == paired(departments_view(ds@), texts_view(keys@)),
            out_keys@.len() == out@.len(),
            forall|i: int| 0 <= i < out@.len() ==> #[trigger] sort_keyed(items.take(k as int))[i]
                == ((out@[i].0, out@[i].1@), out_keys@[i]@),
            sort_keyed(items.take(k as int)).len() == out@.len(),
        decreases n - k,
    {
        let ghost sorted = sort_keyed(items.take(k as int));
        let ghost item = items[k as int];
        proof {
            assert(items.take(k + 1).drop_last() =~= items.take(k as int));
            assert(items.take(k + 1).last() == item);
        }
        let entry = (ds[k].0, ds[k].1.clone());
        let key = chars_of(keys[k].as_str());
        assert(item == ((entry.0, entry.1@), key@));
        let mut p: usize = out.len();
        assert(sorted.take(p as int) =~= sorted);
        while p > 0 && text_less_chars(key.as_slice(), out_keys[p - 1].as_slice())
            invariant
                p <= out@.len() == out_keys@.len() == sorted.len(),
                key@ == item.1,
                forall|i: int| 0 <= i < out@.len() ==> #[trigger] sorted[i]
                    == ((out@[i].0, out@[i].1@), out_keys@[i]@),
                keyed_position(sorted, item) == keyed_position(sorted.take(p as int), item),
            decreases p,
        {
            proof {
                assert(sorted.take(p as int).drop_last() =~= sorted.take(p - 1));
                assert(sorted.take(p as int).last() == sorted[p - 1]);
            }
            p = p - 1;
        }
        proof {
            if p > 0 {
                assert(sorted.take(p as int).last() == sorted[p - 1]);
            }
        }
        let ghost before = out@;
        let ghost before_keys = out_keys@;
        out.insert(p, entry);
        out_keys.insert(p, key);
        proof {
            let t = sorted.insert(p as int, item);
            assert(t == sort_keyed(items.take(k + 1)));
            assert forall|i: int| 0 <= i < out@.len() implies #[trigger] t[i]
                == ((out@[i].0, out@[i].1@), out_keys@[i]@) by {
                if i < p {
                    assert(out@[i] == before[i] && out_keys@[i] == before_keys[i]);
                } else if i > p {
                    assert(out@[i] == before[i - 1] && out_keys@[i] == before_keys[i - 1]);
                }
            }
        }
        k = k + 1;
    }
    proof {
        assert(items.take(n as int) =~= items);
        assert(departments_view(out@) =~= sort_by_keys_of(departments_view(ds@), texts_view(keys@)));
    }
    out
}

/// Departments sorted by lowercase name, equal names kept in order.
fn sort_departments(ds: &Vec<(i32, String)>) -> (res: Vec<(i32, String)>)
    ensures
        departments_view(res@) == sort_by_name(departments_view(ds@)),
{
    let n = ds.len();
    let mut keys: Vec<String> = Vec::new();
    let mut k: usize = 0;
    while k < n
        invariant
            k <= n == ds@.len(),
            keys@.len() == k,
            forall|i: int| 0 <= i < k ==> #[trigger] keys@[i]@ == unicode_lowercase(ds@[i].1@),
        decreases n - k,
    {
        keys.push(to_lowercase(ds[k].1.as_str()));
        k = k + 1;
    }
    let res = sort_by_keys(ds, &keys);
    proof {
        let dv = departments_view(ds@);
        let items = paired(dv, texts_view(keys@));
        assert(keys_are_names(items));
        lemma_sort_keyed_by_name(items);
        assert(items.map_values(|x: Keyed| x.0) =~= dv);
    }
    res
}

/// The departments in a reply, sorted by lowercase name; none when the reply
/// is not a list.
pub fn departments_in(reply: &Json) -> (res: Vec<(i32, String)>)
    ensures
        departments_view(res@) == departments_reply(reply@),
{
    let entries = match reply {
        Json::List(entries) => entries,
        _ => return Vec::new(),
    };
    let ghost ev = match reply@ {
        JsonView::List(e) => e,
        _ => Seq::empty(),
    };
    assert(ev.len() == entries@.len());
    assert(forall|i: int| 0 <= i < ev.len() ==> #[trigger] ev[i] == crate::json::entry_view(entries@[i]));
    let n = entries.len();
    let mut found: Vec<(i32, String)> = Vec::new();
    let mut k: usize = 0;
    while k < n
        invariant
            k <= n == entries@.len(),
            ev.len() == n,
            forall|i: int| 0 <= i < ev.len() ==> #[trigger] ev[i] == crate::json::entry_view(entries@[i]),
            departments_reply(reply@) == sort_by_name(departments_from(ev)),
            departments_from(ev.take(k as int)) == departments_view(found@),
        decreases n - k,
    {
        proof {
            assert(ev.take(k + 1).drop_last() =~= ev.take(k as int));
            assert(ev.take(k + 1).last() == crate::json::entry_view(entries@[k as int]));
        }
        match &entries[k] {
            Some(fields) => match small_number(field(fields, "id")) {
                Some(id) => {
                    let name = text(fields, "name");
                    let ghost before = departments_view(found@);
                    found.push((id, string_of(name.as_slice())));
                    assert(departments_view(found@) =~= before.push((id, name@)));
                }
                None => {}
            },
            None => {}
        }
        k = k + 1;
    }
    assert(ev.take(n as int) =~= ev);
    sort_departments(&found)
}

/// The departments in a reply body, sorted by lowercase name; none when the
/// body is not a JSON list.
pub fn read_departments(body: &str) -> (res: Vec<(i32, String)>)
    ensures
        departments_view(res@) == departments_reply(json_reply(body@)),
{
    let reply = json_text(body);
    departments_in(&reply)
}

/// The Net2 user ID a portrait's file name gives: the part before the last
/// dot, non-empty, all digits, no leading zero, and within `i32`.
pub open spec fn user_id_of(filename: Seq<char>) -> Option<i32> {
    match last_index_of(filename, '.') {
        None => None,
        Some(k) => {
            let stem = filename.take(k);
            if stem.len() == 0 || stem[0] == '0' || !all_digits(stem) || digits_value(stem) > i32::MAX {
                None
            } else {
                Some(digits_value(stem) as i32)
            }
        },
    }
}

/// The filename is the only link between a portrait and a person, so
/// anything ambiguous is rejected rather than guessed at: `00123.jpg` would
/// otherwise silently be the same person as `123.jpg`. Any extension is
/// accepted: whether the contents can be decoded is found out when reading.
#[verifier::loop_isolation(false)]
#[verifier::rlimit(40)]
pub fn portrait_user_id(filename: &str) -> (res: Result<i32, String>)
    ensures
        match user_id_of(filename@) {
            Some(id) => res == Ok::<i32, String>(id),
            None => res matches Err(e) && e@ == NAME_RULE@,
        },
{
    let name = chars_of(filename);
    let mut k: usize = name.len();
    assert(name@.take(k as int) =~= name@);
    while k > 0 && name[k - 1] != '.'
        invariant
            k <= name@.len(),
            last_index_of(name@, '.') == last_index_of(name@.take(k as int), '.'),
        decreases k,
    {
        assert(name@.take(k as int).drop_last() =~= name@.take(k - 1));
        k = k - 1;
    }
    if k == 0 {
        assert(name@.take(0) =~= Seq::<char>::empty());
        return Err(owned(NAME_RULE));
    }
    assert(name@.take(k as int).drop_last() =~= name@.take(k - 1));
    let dot = k - 1;
    let stem = &name.as_slice()[0..dot];
    assert(stem@ =~= name@.take(dot as int));
    if stem.len() == 0 || stem[0] == '0' {
        return Err(owned(NAME_RULE));
    }
    let mut j: usize = 0;
    while j < stem.len()
        invariant
            j <= stem@.len(),
            forall|i: int| 0 <= i < j ==> is_digit(#[trigger] stem@[i]),
        decreases stem@.len() - j,
    {
        if !('0' <= stem[j] && stem[j] <= '9') {
            assert(!is_digit(stem@[j as int]));
            return Err(owned(NAME_RULE));
        }
        j = j + 1;
    }
    assert(all_digits(stem@));
    assert(unsigned_digits(stem@) == stem@);
    match parse_u32(stem) {
        None => Err(owned(NAME_RULE)),
        Some(v) => {
            if v > 2147483647 {
                Err(owned(NAME_RULE))
            } else {
                Ok(v as i32)
            }
        }
    }
}

/// Any positive ID names its own file, whatever the extension, and a
/// leading zero never does.
pub proof fn lemma_user_id_names_its_file(id: i32, ext: Seq<char>)
    requires
        id > 0,
        !ext.contains('.'),
    ensures
        user_id_of(decimal_text(id as nat) + seq!['.'] + ext) == Some(id),
        user_id_of(seq!['0'] + decimal_text(id as nat) + seq!['.'] + ext) is None,
{
    let d = decimal_text(id as nat);
    lemma_decimal_text(id as nat);
    let f = d + seq!['.'] + ext;
    lemma_last_dot(d + seq!['.'], ext);
    assert(f.take(d.len() as int) =~= d);
    let g = seq!['0'] + d + seq!['.'] + ext;
    assert(g =~= (seq!['0'] + d + seq!['.']) + ext);
    lemma_last_dot(seq!['0'] + d + seq!['.'], ext);
    assert(g.take(d.len() as int + 1)[0] == '0');
}

proof fn lemma_last_dot(front: Seq<char>, ext: Seq<char>)
    requires
        front.len() > 0,
        front.last() == '.',
        !ext.contains('.'),
    ensures
        last_index_of(front + ext, '.') == Some(front.len() - 1),
    decreases ext.len(),
{
    if ext.len() == 0 {
        assert(front + ext =~= front);
    } else {
        assert((front + ext).drop_last() =~= front + ext.drop_last());
        assert(ext.last() == ext[ext.len() - 1]);
        assert(!ext.drop_last().contains('.')) by {
            if ext.drop_last().contains('.') {
                let i = choose|i: int| 0 <= i < ext.drop_last().len() && ext.drop_last()[i] == '.';
                assert(ext[i] == '.');
            }
        }
        lemma_last_dot(front, ext.drop_last());
    }
}

/// The width and height `imagesize::blob_size` reads from the start of an
/// image file, or `None` when it cannot read them.
pub uninterp spec fn blob_dimensions(header: Seq<u8>) -> Option<(usize, usize)>;

/// `imagesize::blob_size`: the image's width and height, or `None` where the
/// crate returns an error. The contract only names the result. It is called
/// only on a header that starts like a JPEG, which the crate hands to its
/// JPEG reader; its readers for other formats are never reached.
#[verifier::external_body]
fn image_size(header: &[u8]) -> (res: Option<(usize, usize)>)
    requires
        jpeg_start(header@),
    ensures
        res == blob_dimensions(header@),
{
    imagesize::blob_size(header).ok().map(|size| (size.width, size.height))
}

/// Whether a text ends with another.
pub open spec fn ends_with(s: Seq<char>, suffix: Seq<char>) -> bool {
    s.len() >= suffix.len() && s.skip(s.len() - suffix.len()) == suffix
}

/// Whether a file starts like a JPEG.
pub open spec fn jpeg_start(header: Seq<u8>) -> bool {
    header.len() >= 3 && header[0] == 0xFFu8 && header[1] == 0xD8u8 && header[2] == 0xFFu8
}

/// Why a portrait file cannot go to Net2 as it is, given its name, its first
/// bytes, its whole size and the dimensions read from it; `None` when it can.
/// Only a JPG named as one: Net2 stores a PNG but shows no picture for it.
pub open spec fn portrait_problem(filename: Seq<char>, header: Seq<u8>, size: usize, dimensions: Option<(usize, usize)>) -> Option<Seq<char>> {
    let lower = lowercase(filename);
    if size == 0 || size > MAX_IMAGE_BYTES {
        Some("Images must be no larger than 3.5 MB."@)
    } else if !(jpeg_start(header) && (ends_with(lower, ".jpg"@) || ends_with(lower, ".jpeg"@))) {
        Some("The file is not the JPG its name says."@)
    } else {
        match dimensions {
            Some((w, h)) => if w as int * h as int > MAX_PIXELS as int {
                Some("Images must be no larger than 40 megapixels."@)
            } else {
                None
            },
            None => Some("The image size could not be read."@),
        }
    }
}

/// Whether a text ends with a suffix, on character slices.
fn ends_with_chars(s: &[char], suffix: &str) -> (res: bool)
    ensures
        res == ends_with(s@, suffix@),
{
    let t = chars_of(suffix);
    if s.len() < t.len() {
        return false;
    }
    let start = s.len() - t.len();
    let tail = &s[start..s.len()];
    assert(tail@ =~= s@.skip(start as int));
    crate::text::chars_equal(tail, t.as_slice())
}

/// Whether a portrait can go to Net2 as it is, given the dimensions read
/// from its header; anything else is converted first.
pub fn portrait_verdict(filename: &str, header: &[u8], size: usize, dimensions: Option<(usize, usize)>) -> (res: Result<(), String>)
    ensures
        match portrait_problem(filename@, header@, size, dimensions) {
            None => res is Ok,
            Some(m) => res matches Err(e) && e@ == m,
        },
{
    if size == 0 || size > MAX_IMAGE_BYTES {
        return Err(owned("Images must be no larger than 3.5 MB."));
    }
    let lower = lower(chars_of(filename).as_slice());
    let jpeg = header.len() >= 3 && header[0] == 0xFF && header[1] == 0xD8 && header[2] == 0xFF;
    if !(jpeg && (ends_with_chars(lower.as_slice(), ".jpg") || ends_with_chars(lower.as_slice(), ".jpeg"))) {
        return Err(owned("The file is not the JPG its name says."));
    }
    match dimensions {
        Some((w, h)) => {
            assert((w as int) * (h as int) < 0x1_0000_0000_0000_0000_0000_0000_0000_0000) by (nonlinear_arith)
                requires
                    0 <= w < 0x1_0000_0000_0000_0000,
                    0 <= h < 0x1_0000_0000_0000_0000,
            ;
            if (w as u128) * (h as u128) > MAX_PIXELS as u128 {
                Err(owned("Images must be no larger than 40 megapixels."))
            } else {
                Ok(())
            }
        }
        None => Err(owned("The image size could not be read.")),
    }
}

/// Whether a portrait can go to Net2 exactly as it is; anything else is
/// converted. `header` need only be the first few kilobytes; `size` is the
/// whole file.
pub fn check_portrait(filename: &str, header: &[u8], size: usize) -> (res: Result<(), String>)
    ensures
        match portrait_problem(filename@, header@, size, blob_dimensions(header@)) {
            None => res is Ok,
            Some(m) => res matches Err(e) && e@ == m,
        },
{
    // The file's own checks come first: the image size is read only from a
    // file that is what its name says.
    match portrait_verdict(filename, header, size, Some((1, 1))) {
        Err(e) => Err(e),
        Ok(()) => {
            let dimensions = image_size(header);
            portrait_verdict(filename, header, size, dimensions)
        }
    }
}

/// A side scaled so that the longest side becomes `MAX_EDGE`, rounded to
/// the nearest pixel, and at least 1.
pub open spec fn fitted_side(side: u32, longest: u32) -> u32 {
    let scaled = (side as nat * MAX_EDGE as nat + longest as nat / 2) / longest as nat;
    if scaled < 1 { 1 } else { scaled as u32 }
}

/// The size to redraw a photo at: its own, or scaled down so the longest side
/// is `MAX_EDGE`. Never enlarged.
pub open spec fn fitted(width: u32, height: u32) -> (u32, u32) {
    let longest = if width >= height { width } else { height };
    if longest <= MAX_EDGE {
        (width, height)
    } else {
        (fitted_side(width, longest), fitted_side(height, longest))
    }
}

proof fn lemma_fit_side(side: nat, l: nat)
    requires
        1 <= side <= l,
        l > 1200,
    ensures
        (side * 1200 + l / 2) / l <= side,
        (side * 1200 + l / 2) / l <= (l * 1200 + l / 2) / l,
        (l * 1200 + l / 2) / l == 1200,
{
    let x = (side * 1200 + l / 2) as int;
    let li = l as int;
    vstd::arithmetic::div_mod::lemma_fundamental_div_mod(x, li);
    let q = x / li;
    assert(x < (side + 1) * l) by (nonlinear_arith)
        requires
            side <= l,
            l > 1200,
            x == side * 1200 + l / 2,
            l / 2 < l,
    ;
    assert(q <= side) by (nonlinear_arith)
        requires
            x == li * q + x % li,
            0 <= x % li,
            x < (side + 1) * l,
            li == l,
            l > 0,
    ;
    vstd::arithmetic::div_mod::lemma_div_is_ordered(x, (l * 1200 + l / 2) as int, li);
    vstd::arithmetic::div_mod::lemma_fundamental_div_mod_converse_div(
        (l * 1200 + l / 2) as int,
        li,
        1200,
        (l / 2) as int,
    );
}

/// The size to redraw a photo at: its own, or scaled down so the longest side
/// is `MAX_EDGE`. A fitted photo is never enlarged or distorted: each side
/// stays between 1 and its own length, and the longest becomes `MAX_EDGE`
/// unless it was shorter already.
pub fn fit(width: u32, height: u32) -> (res: (u32, u32))
    ensures
        res == fitted(width, height),
        width >= 1 && height >= 1 ==> {
            let longest = if width >= height { width } else { height };
            &&& 1 <= res.0 <= width
            &&& 1 <= res.1 <= height
            &&& (if res.0 >= res.1 { res.0 } else { res.1 }) == (if longest <= MAX_EDGE { longest } else { MAX_EDGE })
        },
{
    let longest = if width >= height { width } else { height };
    if longest <= MAX_EDGE {
        return (width, height);
    }
    let w = scale(width, longest);
    let h = scale(height, longest);
    proof {
        if width >= 1 && height >= 1 {
            lemma_fit_side(width as nat, longest as nat);
            lemma_fit_side(height as nat, longest as nat);
        }
    }
    (w, h)
}

fn scale(side: u32, longest: u32) -> (res: u32)
    requires
        longest > MAX_EDGE,
        side <= longest,
    ensures
        res == fitted_side(side, longest),
{
    let scaled = (side as u64 * 1200 + longest as u64 / 2) / longest as u64;
    proof {
        if side >= 1 {
            lemma_fit_side(side as nat, longest as nat);
        } else {
            assert(scaled == (longest as u64 / 2) / longest as u64);
        }
    }
    if scaled < 1 { 1 } else { scaled as u32 }
}

/// Whether the ID at `i` is present and some other position holds it too.
pub open spec fn is_duplicate(ids: Seq<Option<i32>>, i: int) -> bool {
    ids[i] is Some && exists|j: int| 0 <= j < ids.len() && j != i && ids[j] == ids[i]
}

/// True for every copy of an ID that appears more than once.
pub fn duplicate_flags(ids: &[Option<i32>]) -> (res: Vec<bool>)
    ensures
        res@.len() == ids@.len(),
        forall|i: int| 0 <= i < ids@.len() ==> res@[i] == is_duplicate(ids@, i),
{
    let n = ids.len();
    let mut out: Vec<bool> = Vec::new();
    let mut i: usize = 0;
    while i < n
        invariant
            i <= n == ids@.len(),
            out@.len() == i,
            forall|k: int| 0 <= k < i ==> out@[k] == is_duplicate(ids@, k),
        decreases n - i,
    {
        let mut found = false;
        if let Some(id) = ids[i] {
            let mut j: usize = 0;
            while j < n
                invariant
                    j <= n == ids@.len(),
                    i < n,
                    ids@[i as int] == Some(id),
                    found == exists|k: int| 0 <= k < j && k != i && ids@[k] == Some(id),
                decreases n - j,
            {
                if j != i {
                    if let Some(other) = ids[j] {
                        if other == id {
                            found = true;
                        }
                    }
                }
                j = j + 1;
            }
        }
        out.push(found);
        i = i + 1;
    }
    out
}

} // verus!
