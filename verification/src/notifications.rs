//! The context a notification carries to the page when it is clicked.
//!
//! A notification may know the Slack team and channel it came from. Only
//! usable values are kept: trimmed, non-empty and not `unknown`. When the
//! page cannot be reached, the team and channel give a fallback URL.

use vstd::prelude::*;

use crate::downloads::{opt_str_view, opt_string_view};
use crate::text::{lemma_trim_idempotent, spec_char_is_whitespace, trim_start_by, trim_end_by, chars_eq_str, chars_of, string_of, trim_chars, trim_ws, TrimSet};

verus! {

/// A clicked notification's identity and the Slack context it points at.
#[derive(Clone, Debug)]
pub struct NotificationActivation {
    notification_id: String,
    team_id: Option<String>,
    channel_id: Option<String>,
}

impl View for NotificationActivation {
    /// (notification id, team id, channel id)
    type V = (Seq<char>, Option<Seq<char>>, Option<Seq<char>>);

    closed spec fn view(&self) -> Self::V {
        (self.notification_id@, opt_string_view(self.team_id), opt_string_view(self.channel_id))
    }
}

/// A context value worth keeping: the value without surrounding whitespace,
/// unless that is empty or `unknown`.
pub open spec fn usable_context(value: Option<Seq<char>>) -> Option<Seq<char>> {
    match value {
        None => None,
        Some(v) => {
            let t = trim_ws(v);
            if t.len() == 0 || t == "unknown"@ {
                None
            } else {
                Some(t)
            }
        },
    }
}

/// The Slack client URL of a team, and of a channel in it when known.
pub open spec fn client_url(team_id: Seq<char>, channel_id: Option<Seq<char>>) -> Seq<char> {
    match channel_id {
        Some(c) => "https://app.slack.com/client/"@ + team_id + seq!['/'] + c,
        None => "https://app.slack.com/client/"@ + team_id,
    }
}

/// The fallback URL of an activation: none without a team.
pub open spec fn fallback_url(v: (Seq<char>, Option<Seq<char>>, Option<Seq<char>>)) -> Option<
    Seq<char>,
> {
    match v.1 {
        Some(t) => Some(client_url(t, v.2)),
        None => None,
    }
}

/// Keeps a context value only when it is usable, trimmed.
pub fn usable_context_value(value: Option<String>) -> (r: Option<String>)
    ensures
        opt_string_view(r) == usable_context(opt_string_view(value)),
{
    match value {
        None => None,
        Some(v) => {
            let chars = chars_of(v.as_str());
            let t = trim_chars(&chars, TrimSet::Whitespace);
            if t.len() == 0 || chars_eq_str(&t, "unknown") {
                None
            } else {
                Some(string_of(&t))
            }
        },
    }
}

impl NotificationActivation {
    /// An activation keeping only the usable team and channel.
    pub fn new(notification_id: String, team_id: Option<String>, channel_id: Option<String>) -> (r:
        Self)
        ensures
            r@ == (
                notification_id@,
                usable_context(opt_string_view(team_id)),
                usable_context(opt_string_view(channel_id)),
            ),
    {
        NotificationActivation {
            notification_id,
            team_id: usable_context_value(team_id),
            channel_id: usable_context_value(channel_id),
        }
    }

    /// The Slack client URL to open when the page cannot take the
    /// activation itself; none without a team.
    pub fn target_url(&self) -> (r: Option<String>)
        ensures
            opt_string_view(r) == fallback_url(self@),
    {
        match &self.team_id {
            None => None,
            Some(team_id) => {
                let mut url = "https://app.slack.com/client/".to_owned();
                url.append(team_id.as_str());
                match &self.channel_id {
                    Some(channel_id) => {
                        url.append("/");
                        url.append(channel_id.as_str());
                        proof {
                            reveal_strlit("/");
                        }
                    },
                    None => {},
                }
                assert(url@ =~= client_url(team_id@, opt_string_view(self.channel_id)));
                Some(url)
            },
        }
    }

    pub fn notification_id(&self) -> (r: &str)
        ensures
            r@ == self@.0,
    {
        self.notification_id.as_str()
    }

    /// The team, if usable.
    pub fn team_id(&self) -> (r: Option<&str>)
        ensures
            opt_str_view(r) == self@.1,
    {
        match &self.team_id {
            Some(t) => Some(t.as_str()),
            None => None,
        }
    }

    /// The channel, if usable.
    pub fn channel_id(&self) -> (r: Option<&str>)
        ensures
            opt_str_view(r) == self@.2,
    {
        match &self.channel_id {
            Some(c) => Some(c.as_str()),
            None => None,
        }
    }

    /// Replaces the team and channel with the usable parts of late context;
    /// the notification id stays.
    pub fn update_context(&mut self, team_id: Option<String>, channel_id: Option<String>)
        ensures
            final(self)@ == (
                old(self)@.0,
                usable_context(opt_string_view(team_id)),
                usable_context(opt_string_view(channel_id)),
            ),
    {
        self.team_id = usable_context_value(team_id);
        self.channel_id = usable_context_value(channel_id);
    }
}

// ---------------------------------------------------------------------------
// The activation script handed to the page
// ---------------------------------------------------------------------------

/// A lower-case hexadecimal digit.
pub open spec fn hex_digit(d: int) -> char {
    if d < 10 {
        (48 + d) as char
    } else {
        (87 + d) as char
    }
}

/// How serde_json writes one character inside a JSON string: `"` and `\\`
/// behind a backslash, the short escapes for backspace, tab, line feed, form
/// feed and carriage return, `\\u00xx` for the other control characters
/// below U+0020, and every other character as it is.
pub open spec fn json_escape_char(c: char) -> Seq<char> {
    let v = c as u32;
    if c == '"' {
        seq!['\\', '"']
    } else if c == '\\' {
        seq!['\\', '\\']
    } else if v == 0x08 {
        seq!['\\', 'b']
    } else if v == 0x09 {
        seq!['\\', 't']
    } else if v == 0x0A {
        seq!['\\', 'n']
    } else if v == 0x0C {
        seq!['\\', 'f']
    } else if v == 0x0D {
        seq!['\\', 'r']
    } else if v < 0x20 {
        seq!['\\', 'u', '0', '0', hex_digit(v as int / 16), hex_digit(v as int % 16)]
    } else {
        seq![c]
    }
}

/// The escaped characters of `s`, in order.
pub open spec fn json_escaped(s: Seq<char>) -> Seq<char>
    decreases s.len(),
{
    if s.len() == 0 {
        Seq::empty()
    } else {
        json_escaped(s.drop_last()) + json_escape_char(s.last())
    }
}

/// How one character is written inside a JSON string: a quote or a
/// backslash gets a backslash in front; backspace, tab, line feed, form feed
/// and carriage return become `\b`, `\t`, `\n`, `\f`, `\r`; the other
/// characters below U+0020 become `\u00` and two lower-case hex digits of
/// their code; every other character is written as it is.
pub proof fn lemma_json_escape_rules(c: char)
    ensures
        c == '"' ==> json_escape_char(c) == seq!['\\', '"'],
        c == '\\' ==> json_escape_char(c) == seq!['\\', '\\'],
        (c as u32) >= 32 && c != '"' && c != '\\' ==> json_escape_char(c) == seq![c],
        (c as u32) == 8 ==> json_escape_char(c) == seq!['\\', 'b'],
        (c as u32) == 9 ==> json_escape_char(c) == seq!['\\', 't'],
        (c as u32) == 10 ==> json_escape_char(c) == seq!['\\', 'n'],
        (c as u32) == 12 ==> json_escape_char(c) == seq!['\\', 'f'],
        (c as u32) == 13 ==> json_escape_char(c) == seq!['\\', 'r'],
        (c as u32) < 32 && (c as u32) != 8 && (c as u32) != 9 && (c as u32) != 10 && (c as u32)
            != 12 && (c as u32) != 13 ==> {
            let e = json_escape_char(c);
            &&& e.len() == 6
            &&& e[0] == '\\' && e[1] == 'u' && e[2] == '0' && e[3] == '0'
            &&& e[4] as u32 == 48 + (c as u32) / 16
            &&& e[5] as u32 == if (c as u32) % 16 < 10 {
                48 + (c as u32) % 16
            } else {
                97 + (c as u32) % 16 - 10
            }
        },
{
}

/// A JSON string literal is quoted at both ends and holds no raw control
/// character.
pub proof fn lemma_json_literal_clean(s: Seq<char>)
    ensures
        json_string_literal(s).len() >= s.len() + 2,
        json_string_literal(s)[0] == '"',
        json_string_literal(s).last() == '"',
        forall|i: int|
            0 <= i < json_string_literal(s).len() ==> (#[trigger] json_string_literal(s)[i]) as u32 >= 32,
{
    lemma_json_escaped_clean(s);
    let j = json_string_literal(s);
    let e = json_escaped(s);
    assert forall|i: int| 0 <= i < j.len() implies (#[trigger] j[i]) as u32 >= 32 by {
        if 1 <= i < j.len() - 1 {
            assert(j[i] == e[i - 1]);
        }
    }
}

proof fn lemma_json_escaped_clean(s: Seq<char>)
    ensures
        json_escaped(s).len() >= s.len(),
        forall|i: int| 0 <= i < json_escaped(s).len() ==> (#[trigger] json_escaped(s)[i]) as u32 >= 32,
    decreases s.len(),
{
    if s.len() > 0 {
        lemma_json_escaped_clean(s.drop_last());
        let a = json_escaped(s.drop_last());
        let b = json_escape_char(s.last());
        assert(b.len() >= 1);
        assert forall|i: int| 0 <= i < b.len() implies (#[trigger] b[i]) as u32 >= 32 by {}
        assert forall|i: int| 0 <= i < (a + b).len() implies (#[trigger] (a + b)[i]) as u32 >= 32 by {
            if i < a.len() {
                assert((a + b)[i] == a[i]);
            } else {
                assert((a + b)[i] == b[i - a.len()]);
            }
        }
    }
}

/// The JSON string literal of `s`, as serde_json writes it.
pub open spec fn json_string_literal(s: Seq<char>) -> Seq<char> {
    seq!['"'] + json_escaped(s) + seq!['"']
}

/// The error type of `serde_json`, carried through unread.
#[verifier::external_type_specification]
#[verifier::external_body]
pub struct ExJsonError(serde_json::Error);

/// Calls `serde_json::to_string` on a string slice. Writing a string into
/// the in-memory buffer cannot fail; the result is the quoted, escaped
/// string.
#[verifier::external_body]
fn json_string(text: &str) -> (r: Result<String, serde_json::Error>)
    ensures
        match r {
            Ok(s) => s@ == json_string_literal(text@),
            Err(_) => false,
        },
{
    serde_json::to_string(text)
}

/// The JSON of an optional string: `null`, or its string literal.
pub open spec fn json_optional(v: Option<Seq<char>>) -> Seq<char> {
    match v {
        None => "null"@,
        Some(s) => json_string_literal(s),
    }
}

/// The JSON object of an activation, its fields in declaration order with
/// camel-case names, given the JSON of each field.
pub open spec fn payload_text(id_json: Seq<char>, team_json: Seq<char>, channel_json: Seq<char>) -> Seq<
    char,
> {
    "{\"notificationId\":"@ + id_json + ",\"teamId\":"@ + team_json + ",\"channelId\":"@ + channel_json
        + "}"@
}

/// The JavaScript that hands `payload` to the page's activation bridge and
/// otherwise navigates to `fallback` (a JSON string literal or `null`).
pub open spec fn script_text(payload: Seq<char>, fallback: Seq<char>) -> Seq<char> {
    script_head() + payload + ", "@ + fallback + ");"@
}

pub open spec fn script_head() -> Seq<char> {
    "(function(payload, fallbackUrl) {\n            try {\n                if (typeof window.__ZlackActivateNotification === \"function\") {\n                    window.__ZlackActivateNotification(payload);\n                    return;\n                }\n            } catch (error) {\n                console.error(\"Zlack: Notification activation bridge failed\", error);\n            }\n            if (fallbackUrl && window.location.href !== fallbackUrl) {\n                window.location.href = fallbackUrl;\n            }\n        })("@
}

/// Why an activation script could not be built: a field did not serialize
/// (which serde_json never reports for strings).
#[derive(Debug)]
pub enum ScriptError {
    Serialization(serde_json::Error),
}

/// The JSON object of an activation from the JSON of its fields.
pub fn activation_payload_json(id_json: &str, team_json: &str, channel_json: &str) -> (r: String)
    ensures
        r@ == payload_text(id_json@, team_json@, channel_json@),
{
    let mut r = "{\"notificationId\":".to_owned();
    r.append(id_json);
    r.append(",\"teamId\":");
    r.append(team_json);
    r.append(",\"channelId\":");
    r.append(channel_json);
    r.append("}");
    r
}

/// The activation script for a payload and a fallback URL, both already JSON.
pub fn compose_activation_script(payload: &str, fallback: &str) -> (r: String)
    ensures
        r@ == script_text(payload@, fallback@),
{
    let mut r = "(function(payload, fallbackUrl) {\n            try {\n                if (typeof window.__ZlackActivateNotification === \"function\") {\n                    window.__ZlackActivateNotification(payload);\n                    return;\n                }\n            } catch (error) {\n                console.error(\"Zlack: Notification activation bridge failed\", error);\n            }\n            if (fallbackUrl && window.location.href !== fallbackUrl) {\n                window.location.href = fallbackUrl;\n            }\n        })(".to_owned();
    r.append(payload);
    r.append(", ");
    r.append(fallback);
    r.append(");");
    r
}

fn json_optional_string(v: Option<&str>) -> (r: Result<String, serde_json::Error>)
    ensures
        match r {
            Ok(s) => json_optional(opt_str_view(v)) == s@,
            Err(_) => false,
        },
{
    match v {
        None => Ok("null".to_owned()),
        Some(s) => json_string(s),
    }
}

/// The script that delivers `activation` to the page that showed it.
pub fn activation_script(activation: &NotificationActivation) -> (r: Result<String, ScriptError>)
    ensures
        r matches Ok(s) && s@ == script_text(
            payload_text(
                json_string_literal(activation@.0),
                json_optional(activation@.1),
                json_optional(activation@.2),
            ),
            json_optional(fallback_url(activation@)),
        ),
{
    let id = match json_string(activation.notification_id()) {
        Ok(j) => j,
        Err(e) => return Err(ScriptError::Serialization(e)),
    };
    let team = match json_optional_string(activation.team_id()) {
        Ok(j) => j,
        Err(e) => return Err(ScriptError::Serialization(e)),
    };
    let channel = match json_optional_string(activation.channel_id()) {
        Ok(j) => j,
        Err(e) => return Err(ScriptError::Serialization(e)),
    };
    let url = activation.target_url();
    let url_ref: Option<&str> = match &url {
        Some(u) => Some(u.as_str()),
        None => None,
    };
    let fallback = match json_optional_string(url_ref) {
        Ok(j) => j,
        Err(e) => return Err(ScriptError::Serialization(e)),
    };
    let payload = activation_payload_json(id.as_str(), team.as_str(), channel.as_str());
    Ok(compose_activation_script(payload.as_str(), fallback.as_str()))
}

/// What to do when the activation could not be handed to its page.
pub enum ActivationFallback {
    /// Switch to the team's workspace and open the URL when known.
    SwitchWorkspace { team_id: String, target_url: Option<String> },
    /// Bring back whichever window is active.
    RestoreActiveWindow,
}

/// The fallback for an activation that its page did not take: switch to
/// its team when it has one, otherwise restore the active window.
pub fn activation_fallback(activation: &NotificationActivation) -> (r: ActivationFallback)
    ensures
        match r {
            ActivationFallback::SwitchWorkspace { team_id, target_url } => activation@.1 == Some(
                team_id@,
            ) && opt_string_view(target_url) == fallback_url(activation@),
            ActivationFallback::RestoreActiveWindow => activation@.1 is None,
        },
{
    match activation.team_id() {
        Some(t) => ActivationFallback::SwitchWorkspace {
            team_id: t.to_owned(),
            target_url: activation.target_url(),
        },
        None => ActivationFallback::RestoreActiveWindow,
    }
}

// ---------------------------------------------------------------------------
// Laws
// ---------------------------------------------------------------------------

/// A usable context value is kept as it is: nothing is left to trim, it is
/// not empty and it is not `unknown`. So cleaning a value twice changes
/// nothing more than cleaning it once.
pub proof fn lemma_usable_context_stable(value: Option<Seq<char>>)
    ensures
        usable_context(usable_context(value)) == usable_context(value),
        usable_context(value) matches Some(t) ==> t.len() > 0 && t != "unknown"@
            && !spec_char_is_whitespace(t[0]) && !spec_char_is_whitespace(t.last()),
{
    if let Some(v) = value {
        lemma_trim_idempotent(v, |c: char| spec_char_is_whitespace(c));
    }
}

/// A missing value, an empty or all-whitespace value and the placeholder
/// `unknown` give no context; a value without whitespace at its ends that is
/// not `unknown` is kept exactly.
pub proof fn lemma_usable_context_rules(v: Seq<char>)
    ensures
        usable_context(None) is None,
        usable_context(Some("unknown"@)) is None,
        usable_context(Some(Seq::empty())) is None,
        (forall|i: int| 0 <= i < v.len() ==> (#[trigger] v[i]) == ' ') ==> usable_context(Some(v)) is None,
        v.len() >= 1 && !spec_char_is_whitespace(v[0]) && !spec_char_is_whitespace(v.last()) && v
            != "unknown"@ ==> usable_context(Some(v)) == Some(v),
{
    reveal_strlit("unknown");
    let p = |c: char| spec_char_is_whitespace(c);
    assert(trim_ws("unknown"@) == "unknown"@) by {
        assert("unknown"@[0] == 'u' && "unknown"@.last() == 'n');
        assert(trim_start_by("unknown"@, p) == "unknown"@);
        assert(trim_end_by("unknown"@, p) == "unknown"@);
    }
    if forall|i: int| 0 <= i < v.len() ==> (#[trigger] v[i]) == ' ' {
        lemma_trim_all_spaces(v);
    }
    if v.len() >= 1 && !spec_char_is_whitespace(v[0]) && !spec_char_is_whitespace(v.last()) {
        assert(trim_start_by(v, p) == v);
        assert(trim_end_by(v, p) == v);
    }
}

proof fn lemma_trim_all_spaces(v: Seq<char>)
    requires
        forall|i: int| 0 <= i < v.len() ==> (#[trigger] v[i]) == ' ',
    ensures
        trim_start_by(v, |c: char| spec_char_is_whitespace(c)).len() == 0,
    decreases v.len(),
{
    if v.len() > 0 {
        let r = v.drop_first();
        assert forall|i: int| 0 <= i < r.len() implies (#[trigger] r[i]) == ' ' by {
            assert(r[i] == v[i + 1]);
        }
        assert(spec_char_is_whitespace(v[0]));
        lemma_trim_all_spaces(r);
    }
}

/// The fallback opens the team's page of the Slack web client, and the
/// channel's page within it when the channel is known.
pub proof fn lemma_fallback_url_exact(id: Seq<char>, team: Seq<char>, channel: Seq<char>)
    ensures
        fallback_url((id, Some(team), Some(channel))) == Some(
            "https://app.slack.com/client/"@ + team + "/"@ + channel,
        ),
        fallback_url((id, Some(team), None)) == Some("https://app.slack.com/client/"@ + team),
        fallback_url((id, None, Some(channel))) is None,
{
    reveal_strlit("/");
    assert(client_url(team, Some(channel)) =~= "https://app.slack.com/client/"@ + team + "/"@ + channel);
}

/// The activation object handed to the page has the keys `notificationId`,
/// `teamId` and `channelId`, in that order, with the given JSON values.
pub proof fn lemma_payload_keys(id: Seq<char>, team: Seq<char>, channel: Seq<char>)
    ensures
        payload_text(id, team, channel) == "{"@ + "\"notificationId\":"@ + id + ","@ + "\"teamId\":"@
            + team + ","@ + "\"channelId\":"@ + channel + "}"@,
{
    reveal_strlit("{\"notificationId\":");
    reveal_strlit(",\"teamId\":");
    reveal_strlit(",\"channelId\":");
    reveal_strlit("}");
    reveal_strlit("{");
    reveal_strlit("\"notificationId\":");
    reveal_strlit(",");
    reveal_strlit("\"teamId\":");
    reveal_strlit("\"channelId\":");
    assert(payload_text(id, team, channel) =~= "{"@ + "\"notificationId\":"@ + id + ","@
        + "\"teamId\":"@ + team + ","@ + "\"channelId\":"@ + channel + "}"@);
}

/// Rebuilding an activation from its own id and context gives it back, and
/// late context applied to a pending activation leaves it exactly as a new
/// activation with that context would be.
pub proof fn lemma_activation_rebuild(
    a: (Seq<char>, Option<Seq<char>>, Option<Seq<char>>),
    team_id: Option<Seq<char>>,
    channel_id: Option<Seq<char>>,
)
    requires
        a.1 == usable_context(team_id),
        a.2 == usable_context(channel_id),
    ensures
        (a.0, usable_context(a.1), usable_context(a.2)) == a,
{
    lemma_usable_context_stable(team_id);
    lemma_usable_context_stable(channel_id);
}

/// The activation script first hands the payload to the page's bridge when
/// the bridge is a function, and returns right after that call; only when
/// the bridge is missing or throws does it navigate to the fallback URL, and
/// only when that URL is given and differs from the current one. The
/// payload and fallback are the arguments of the immediately invoked
/// function.
pub proof fn lemma_script_calls_bridge_first(payload: Seq<char>, fallback: Seq<char>)
    ensures
        script_text(payload, fallback) == "(function(payload, fallbackUrl) {\n            try {\n                "@
            + "if (typeof window.__ZlackActivateNotification === \"function\") {\n                    window.__ZlackActivateNotification(payload);\n                    return;\n                }"@
            + "\n            } catch (error) {\n                console.error(\"Zlack: Notification activation bridge failed\", error);\n            }\n"@
            + "            if (fallbackUrl && window.location.href !== fallbackUrl) {\n                window.location.href = fallbackUrl;\n            }\n"@
            + "        })("@ + payload + ", "@ + fallback + ");"@,
{
    reveal_strlit("(function(payload, fallbackUrl) {\n            try {\n                if (typeof window.__ZlackActivateNotification === \"function\") {\n                    window.__ZlackActivateNotification(payload);\n                    return;\n                }\n            } catch (error) {\n                console.error(\"Zlack: Notification activation bridge failed\", error);\n            }\n            if (fallbackUrl && window.location.href !== fallbackUrl) {\n                window.location.href = fallbackUrl;\n            }\n        })(");
    reveal_strlit("(function(payload, fallbackUrl) {\n            try {\n                ");
    reveal_strlit("if (typeof window.__ZlackActivateNotification === \"function\") {\n                    window.__ZlackActivateNotification(payload);\n                    return;\n                }");
    reveal_strlit("\n            } catch (error) {\n                console.error(\"Zlack: Notification activation bridge failed\", error);\n            }\n");
    reveal_strlit("            if (fallbackUrl && window.location.href !== fallbackUrl) {\n                window.location.href = fallbackUrl;\n            }\n");
    reveal_strlit("        })(");
    assert(script_head() =~= "(function(payload, fallbackUrl) {\n            try {\n                "@
        + "if (typeof window.__ZlackActivateNotification === \"function\") {\n                    window.__ZlackActivateNotification(payload);\n                    return;\n                }"@
        + "\n            } catch (error) {\n                console.error(\"Zlack: Notification activation bridge failed\", error);\n            }\n"@
        + "            if (fallbackUrl && window.location.href !== fallbackUrl) {\n                window.location.href = fallbackUrl;\n            }\n"@
        + "        })("@);
}

/// The fallback URL exists exactly when the team is known, and it always
/// points into the Slack web client of that team.
pub proof fn lemma_fallback_url_shape(a: (Seq<char>, Option<Seq<char>>, Option<Seq<char>>))
    ensures
        fallback_url(a) is Some <==> a.1 is Some,
        fallback_url(a) matches Some(u) ==> u.take(
            ("https://app.slack.com/client/"@ + a.1->0).len() as int,
        ) == "https://app.slack.com/client/"@ + a.1->0,
{
    if let Some(t) = a.1 {
        let pre = "https://app.slack.com/client/"@ + t;
        let u = client_url(t, a.2);
        assert(u.take(pre.len() as int) =~= pre);
    }
}

} // verus!
