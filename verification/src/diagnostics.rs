//! Connection diagnostics: the verdict and advice each check gives, from what
//! the system reported.
use vstd::prelude::*;
use crate::paths::PROXY_PORT;
use crate::text::{ascii_lower, chars_to_string, decimal, decimal_string, parse_unsigned, parse_u64_radix, same_chars, to_chars, trim_bounds, trimmed, utf8_lossy, lossy_text};

verus! {

/// The outcome of one diagnostic check.
#[derive(Debug, Clone)]
pub struct DiagnosticCheck {
    /// What was checked.
    pub name: String,
    /// `ok`, `warn`, `fail` or `unknown`.
    pub status: String,
    /// An explanation for the user.
    pub detail: String,
}

/// A check's name, status and detail, by value.
pub open spec fn check_view(c: DiagnosticCheck) -> (Seq<char>, Seq<char>, Seq<char>) {
    (c.name@, c.status@, c.detail@)
}

/// A check with the given name, status and detail.
pub fn check(name: &str, status: &str, detail: String) -> (r: DiagnosticCheck)
    ensures
        check_view(r) == (name@, status@, detail@),
{
    DiagnosticCheck { name: String::from_str(name), status: String::from_str(status), detail }
}

/// `a` followed by `b`.
fn cat(a: String, b: &str) -> (r: String)
    ensures
        r@ == a@ + b@,
{
    let mut s = a;
    s.append(b);
    s
}

/// What a PowerShell command printed, without surrounding white space, when
/// anything is left: the bytes are read as UTF-8 with invalid bytes replaced.
pub open spec fn shell_text(stdout: Seq<u8>) -> Option<Seq<char>> {
    let t = trimmed(lossy_text(stdout));
    if t.len() == 0 { None } else { Some(t) }
}

/// The text a command printed, as `shell_text`.
pub fn shell_output(stdout: &[u8]) -> (r: Option<String>)
    ensures
        match r {
            Some(s) => shell_text(stdout@) == Some(s@),
            None => shell_text(stdout@) is None,
        },
{
    let t = utf8_lossy(stdout);
    let cs = to_chars(t.as_str());
    let (a, b) = trim_bounds(cs.as_slice());
    if a == b {
        None
    } else {
        Some(chars_to_string(&cs.as_slice()[a..b]))
    }
}

/// The advice when the proxy port answers, or does not.
pub open spec fn proxy_check_view(listening: bool) -> (Seq<char>, Seq<char>, Seq<char>) {
    if listening {
        ("Proxy running"@, "ok"@, "Something is listening on port "@ + decimal(PROXY_PORT as nat) + "."@)
    } else {
        (
            "Proxy running"@,
            "fail"@,
            "Nothing is listening on port "@ + decimal(PROXY_PORT as nat)
                + " right now. The app's proxy isn't running, or it failed to start (another program may already be using that port). Try restarting the app."@,
        )
    }
}

/// The check of the proxy port, given whether a connection to it succeeded.
pub fn check_proxy_listening(listening: bool) -> (r: DiagnosticCheck)
    ensures
        check_view(r) == proxy_check_view(listening),
{
    let port = decimal_string(PROXY_PORT as u64);
    if listening {
        let d = cat(cat(String::from_str("Something is listening on port "), port.as_str()), ".");
        check("Proxy running", "ok", d)
    } else {
        let d = cat(
            cat(String::from_str("Nothing is listening on port "), port.as_str()),
            " right now. The app's proxy isn't running, or it failed to start (another program may already be using that port). Try restarting the app.",
        );
        check("Proxy running", "fail", d)
    }
}

/// How many default routes tie for the best metric, from the command's
/// output: its text, without surrounding white space, read as a `u32`.
pub open spec fn tie_count(out: Option<Seq<char>>) -> Option<nat> {
    match out {
        Some(s) => match parse_unsigned(trimmed(s), 10) {
            Some(v) => if v <= u32::MAX { Some(v) } else { None },
            None => None,
        },
        None => None,
    }
}

/// The advice on the LAN address shown, given the address found (if any)
/// and the output of the route query.
pub open spec fn lan_check_view(ip: Option<Seq<char>>, routes: Option<Seq<char>>) -> (Seq<char>, Seq<char>, Seq<char>) {
    match ip {
        None => (
            "LAN IP detected"@,
            "fail"@,
            "Couldn't detect a LAN IP address at all. Check that your PC is actually connected to a network."@,
        ),
        Some(a) => match tie_count(routes) {
            Some(c) => if c > 1 {
                (
                    "LAN IP detected"@,
                    "warn"@,
                    "Currently showing "@ + a + ", but "@ + decimal(c)
                        + " network interfaces are tied for priority (for example Ethernet and WiFi both active). Which IP this app shows can change between launches. Make sure the PS5's proxy setting matches whatever IP is shown here right now, not an old one."@,
                )
            } else {
                ("LAN IP detected"@, "ok"@, a + ", no ambiguity detected."@)
            },
            None => ("LAN IP detected"@, "ok"@, a + ", no ambiguity detected."@),
        },
    }
}

/// The check of the LAN address, as `lan_check_view`.
pub fn check_lan_ip(ip: Option<&str>, routes: Option<&str>) -> (r: DiagnosticCheck)
    ensures
        check_view(r) == lan_check_view(
            match ip { Some(a) => Some(a@), None => None },
            match routes { Some(s) => Some(s@), None => None },
        ),
{
    let a = match ip {
        None => {
            return check(
                "LAN IP detected",
                "fail",
                String::from_str(
                    "Couldn't detect a LAN IP address at all. Check that your PC is actually connected to a network.",
                ),
            );
        },
        Some(a) => a,
    };
    let count: Option<u64> = match routes {
        Some(s) => {
            let cs = to_chars(s);
            let (x, y) = trim_bounds(cs.as_slice());
            parse_u64_radix(&cs.as_slice()[x..y], 10)
        },
        None => None,
    };
    match count {
        Some(c) => {
            if c <= u32::MAX as u64 && c > 1 {
                let d = cat(
                    cat(cat(cat(String::from_str("Currently showing "), a), ", but "), decimal_string(c).as_str()),
                    " network interfaces are tied for priority (for example Ethernet and WiFi both active). Which IP this app shows can change between launches. Make sure the PS5's proxy setting matches whatever IP is shown here right now, not an old one.",
                );
                return check("LAN IP detected", "warn", d);
            }
        },
        None => {},
    }
    check("LAN IP detected", "ok", cat(String::from_str(a), ", no ambiguity detected."))
}

/// A JSON value as the checks read it.
#[derive(Debug, Clone)]
pub enum JsonScalar {
    /// A string.
    Text(String),
    /// A boolean.
    Flag(bool),
    /// Any other value.
    Other,
}

/// A JSON value as the checks read it, by value.
pub enum JsonScalarView {
    Text(Seq<char>),
    Flag(bool),
    Other,
}

/// The fields of one JSON object, in order.
pub type JsonFields = Vec<(String, JsonScalar)>;

/// A JSON document as a list of objects: the elements of a top-level array,
/// or the one top-level value; a value that is not an object has no fields.
#[derive(Debug, Clone)]
pub struct JsonObjects {
    /// The document is an array.
    pub is_array: bool,
    /// The fields of each element.
    pub items: Vec<JsonFields>,
}

/// A scalar by value.
pub open spec fn scalar_view(v: JsonScalar) -> JsonScalarView {
    match v {
        JsonScalar::Text(s) => JsonScalarView::Text(s@),
        JsonScalar::Flag(b) => JsonScalarView::Flag(b),
        JsonScalar::Other => JsonScalarView::Other,
    }
}

/// An object's fields by value.
pub open spec fn fields_view(f: JsonFields) -> Seq<(Seq<char>, JsonScalarView)> {
    Seq::new(f@.len(), |i: int| (f@[i].0@, scalar_view(f@[i].1)))
}

/// A document by value.
pub open spec fn objects_view(o: JsonObjects) -> (bool, Seq<Seq<(Seq<char>, JsonScalarView)>>) {
    (o.is_array, Seq::new(o.items@.len(), |i: int| fields_view(o.items@[i])))
}

/// Names what `serde_json::from_str::<serde_json::Value>` makes of a text,
/// seen as `JsonObjects`; `None` when the text is not JSON.
pub uninterp spec fn json_objects(text: Seq<char>) -> Option<(bool, Seq<Seq<(Seq<char>, JsonScalarView)>>)>;

/// `serde_json::from_str::<serde_json::Value>`, with the parsed value seen as
/// `JsonObjects`. The contract names the result; it adds only that a value
/// that is not an array is seen as a list of one.
#[verifier::external_body]
fn parse_json_objects(text: &str) -> (r: Option<JsonObjects>)
    ensures
        json_objects(text@) == (match r {
            Some(o) => Some(objects_view(o)),
            None => None,
        }),
        r matches Some(o) ==> (!o.is_array ==> o.items@.len() == 1),
{
    let value: serde_json::Value = serde_json::from_str(text).ok()?;
    let (is_array, values) = match value {
        serde_json::Value::Array(a) => (true, a),
        other => (false, vec![other]),
    };
    // Conversion into `JsonScalar` and field lists: the checks read text and
    // flag values only, so every other kind of value becomes `Other`, and an
    // item that is not an object has no fields.
    let scalar = |x: &serde_json::Value| match x {
        serde_json::Value::String(s) => JsonScalar::Text(s.clone()),
        serde_json::Value::Bool(b) => JsonScalar::Flag(*b),
        _ => JsonScalar::Other,
    };
    let items = values.iter().map(|v| match v.as_object() {
        Some(o) => o.iter().map(|(k, x)| (k.clone(), scalar(x))).collect(),
        None => Vec::new(),
    }).collect();
    Some(JsonObjects { is_array, items })
}

/// The value of the first field named `key`.
pub open spec fn field_of(obj: Seq<(Seq<char>, JsonScalarView)>, key: Seq<char>) -> Option<JsonScalarView>
    decreases obj.len(),
{
    if obj.len() == 0 {
        None
    } else if obj[0].0 == key {
        Some(obj[0].1)
    } else {
        field_of(obj.drop_first(), key)
    }
}

/// The value of the field `key` of `obj`, as `field_of`.
fn field<'a>(obj: &'a JsonFields, key: &str) -> (r: Option<&'a JsonScalar>)
    ensures
        match r {
            Some(v) => field_of(fields_view(*obj), key@) == Some(scalar_view(*v)),
            None => field_of(fields_view(*obj), key@) is None,
        },
{
    assert(fields_view(*obj).subrange(0, obj@.len() as int) =~= fields_view(*obj));
    let mut k: usize = 0;
    while k < obj.len()
        invariant
            k <= obj@.len(),
            field_of(fields_view(*obj), key@) == field_of(fields_view(*obj).subrange(k as int, obj@.len() as int), key@),
        decreases obj@.len() - k,
    {
        let ghost rest = fields_view(*obj).subrange(k as int, obj@.len() as int);
        assert(rest.drop_first() =~= fields_view(*obj).subrange(k + 1, obj@.len() as int));
        assert(rest[0] == (obj@[k as int].0@, scalar_view(obj@[k as int].1)));
        if same_chars(obj[k].0.as_str(), key) {
            return Some(&obj[k].1);
        }
        k = k + 1;
    }
    None
}

/// The interface names of the networks set to Public.
pub open spec fn public_aliases(items: Seq<Seq<(Seq<char>, JsonScalarView)>>) -> Seq<Seq<char>>
    decreases items.len(),
{
    if items.len() == 0 {
        Seq::empty()
    } else {
        let prev = public_aliases(items.drop_last());
        let it = items.last();
        if field_of(it, "NetworkCategory"@) == Some(JsonScalarView::Text("Public"@)) {
            match field_of(it, "InterfaceAlias"@) {
                Some(JsonScalarView::Text(a)) => prev.push(a),
                _ => prev,
            }
        } else {
            prev
        }
    }
}

/// The parts joined with `sep` between them (`[String]::join`).
pub open spec fn joined(parts: Seq<Seq<char>>, sep: Seq<char>) -> Seq<char>
    decreases parts.len(),
{
    if parts.len() == 0 {
        Seq::empty()
    } else if parts.len() == 1 {
        parts[0]
    } else {
        joined(parts.drop_last(), sep) + sep + parts.last()
    }
}

/// The advice on the network category, given what the profile query
/// printed (JSON), if anything.
pub open spec fn network_check_view(out: Option<Seq<char>>) -> (Seq<char>, Seq<char>, Seq<char>) {
    match out {
        None => ("Network type"@, "unknown"@, "Couldn't determine whether your network is set to Private or Public."@),
        Some(text) => match json_objects(text) {
            None => ("Network type"@, "unknown"@, "Couldn't parse network category info."@),
            Some(doc) => if public_aliases(doc.1).len() == 0 {
                ("Network type"@, "ok"@, "All active networks are set to Private."@)
            } else {
                (
                    "Network type"@,
                    "warn"@,
                    joined(public_aliases(doc.1), ", "@)
                        + " is set to Public. Windows Firewall blocks a lot more on Public networks, which can silently stop the PS5 from reaching this app. Switch it to Private in Settings > Network & Internet."@,
                )
            },
        },
    }
}

/// The scalar is the text `t`.
fn is_text(v: Option<&JsonScalar>, t: &str) -> (r: bool)
    ensures
        r == (match v {
            Some(x) => scalar_view(*x) == JsonScalarView::Text(t@),
            None => false,
        }),
{
    match v {
        Some(JsonScalar::Text(s)) => same_chars(s.as_str(), t),
        _ => false,
    }
}

/// The fields of each object, by value.
pub open spec fn items_view(items: Seq<JsonFields>) -> Seq<Seq<(Seq<char>, JsonScalarView)>> {
    Seq::new(items.len(), |i: int| fields_view(items[i]))
}

/// The Public interface names of `items`, joined with `, `, and how many
/// there are.
fn public_alias_list(items: &Vec<JsonFields>) -> (r: (String, usize))
    ensures
        r.0@ == joined(public_aliases(items_view(items@)), ", "@),
        r.1 == public_aliases(items_view(items@)).len(),
{
    proof {
        reveal_strlit("NetworkCategory");
        reveal_strlit("InterfaceAlias");
        reveal_strlit("Public");
        reveal_strlit(", ");
        reveal_strlit("");
    }
    let ghost all = items_view(items@);
    let mut joined_names = String::from_str("");
    let mut count: usize = 0;
    let mut k: usize = 0;
    while k < items.len()
        invariant
            k <= items@.len(),
            all == items_view(items@),
            count == public_aliases(all.subrange(0, k as int)).len(),
            joined_names@ == joined(public_aliases(all.subrange(0, k as int)), ", "@),
            count <= k,
        decreases items@.len() - k,
    {
        let it = &items[k];
        let ghost sub = all.subrange(0, k + 1);
        let ghost prev = public_aliases(all.subrange(0, k as int));
        assert(sub.drop_last() =~= all.subrange(0, k as int));
        assert(sub.last() == fields_view(*it));
        let cat_v = field(it, "NetworkCategory");
        if is_text(cat_v, "Public") {
            match field(it, "InterfaceAlias") {
                Some(JsonScalar::Text(a)) => {
                    let ghost next = prev.push(a@);
                    assert(next.drop_last() =~= prev);
                    if count > 0 {
                        joined_names.append(", ");
                    }
                    joined_names.append(a.as_str());
                    count = count + 1;
                    assert(joined_names@ =~= joined(next, ", "@));
                },
                _ => {},
            }
        }
        k = k + 1;
    }
    assert(all.subrange(0, all.len() as int) =~= all);
    (joined_names, count)
}

/// The check of the network category, as `network_check_view`.
pub fn check_network_category(out: Option<&str>) -> (r: DiagnosticCheck)
    ensures
        check_view(r) == network_check_view(match out { Some(s) => Some(s@), None => None }),
{
    proof {
        reveal_strlit("NetworkCategory");
        reveal_strlit("InterfaceAlias");
        reveal_strlit("Public");
    }
    let text = match out {
        None => {
            return check(
                "Network type",
                "unknown",
                String::from_str("Couldn't determine whether your network is set to Private or Public."),
            );
        },
        Some(t) => t,
    };
    let doc = match parse_json_objects(text) {
        None => {
            return check("Network type", "unknown", String::from_str("Couldn't parse network category info."));
        },
        Some(d) => d,
    };
    let (joined_names, count) = public_alias_list(&doc.items);
    assert(objects_view(doc).1 =~= items_view(doc.items@));
    if count == 0 {
        check("Network type", "ok", String::from_str("All active networks are set to Private."))
    } else {
        let d = cat(
            joined_names,
            " is set to Public. Windows Firewall blocks a lot more on Public networks, which can silently stop the PS5 from reaching this app. Switch it to Private in Settings > Network & Internet.",
        );
        check("Network type", "warn", d)
    }
}

/// The fields of a firewall rule document: those of the one object it is;
/// none when it is not JSON or is an array.
pub open spec fn rule_fields(text: Seq<char>) -> Seq<(Seq<char>, JsonScalarView)> {
    match json_objects(text) {
        Some(doc) => if !doc.0 && doc.1.len() > 0 { doc.1[0] } else { Seq::empty() },
        None => Seq::empty(),
    }
}

/// The rule is enabled: `Enabled` is `true` or the text `True`.
pub open spec fn rule_enabled(f: Seq<(Seq<char>, JsonScalarView)>) -> bool {
    field_of(f, "Enabled"@) == Some(JsonScalarView::Flag(true))
        || field_of(f, "Enabled"@) == Some(JsonScalarView::Text("True"@))
}

/// The rule's action text, empty when it has none.
pub open spec fn rule_action(f: Seq<(Seq<char>, JsonScalarView)>) -> Seq<char> {
    match field_of(f, "Action"@) {
        Some(JsonScalarView::Text(a)) => a,
        _ => Seq::empty(),
    }
}

/// The advice on the firewall rule, given what the rule query printed
/// (JSON), if anything.
pub open spec fn firewall_check_view(out: Option<Seq<char>>) -> (Seq<char>, Seq<char>, Seq<char>) {
    match out {
        None => (
            "Firewall rule"@,
            "warn"@,
            "No firewall rule named \"Black Ops 2 Emblem Swapper\" was found. Windows Firewall may be silently blocking the PS5's connection. See the Troubleshooting section below for the fix."@,
        ),
        Some(text) => if rule_enabled(rule_fields(text)) && ascii_lower(rule_action(rule_fields(text)))
            == "allow"@ {
            ("Firewall rule"@, "ok"@, "An enabled Allow rule exists for this app."@)
        } else {
            (
                "Firewall rule"@,
                "warn"@,
                "A rule exists but isn't both Enabled and set to Allow. See the Troubleshooting section below for the fix."@,
            )
        },
    }
}

/// `a` equals `b` ignoring ASCII case, `b` being lowercase ASCII.
fn eq_ascii_lower(a: &str, b: &str) -> (r: bool)
    ensures
        r == (ascii_lower(a@) == b@),
{
    let x = to_chars(a);
    let y = to_chars(b);
    if x.len() != y.len() {
        assert(ascii_lower(a@).len() != b@.len());
        return false;
    }
    let mut i: usize = 0;
    while i < x.len()
        invariant
            x@ == a@,
            y@ == b@,
            x@.len() == y@.len(),
            i <= x@.len(),
            forall|m: int| 0 <= m < i ==> ascii_lower(a@)[m] == b@[m],
        decreases x@.len() - i,
    {
        let c = x[i];
        let v = c as u32;
        let lc: char = if 0x41 <= v && v <= 0x5a { ((v + 0x20) as u8) as char } else { c };
        assert(lc == crate::text::ascii_lower_char(c)) by {
            if 0x41 <= v && v <= 0x5a {
                assert(((v + 0x20) as u8) as char == ((c as u32) + 0x20) as char);
            }
        }
        if lc != y[i] {
            assert(ascii_lower(a@)[i as int] != b@[i as int]);
            return false;
        }
        i = i + 1;
    }
    assert(ascii_lower(a@) =~= b@);
    true
}

/// The check of the firewall rule, as `firewall_check_view`.
pub fn check_firewall_rule(out: Option<&str>) -> (r: DiagnosticCheck)
    ensures
        check_view(r) == firewall_check_view(match out { Some(s) => Some(s@), None => None }),
{
    proof {
        reveal_strlit("Enabled");
        reveal_strlit("True");
        reveal_strlit("Action");
        reveal_strlit("allow");
    }
    let text = match out {
        None => {
            return check(
                "Firewall rule",
                "warn",
                String::from_str(
                    "No firewall rule named \"Black Ops 2 Emblem Swapper\" was found. Windows Firewall may be silently blocking the PS5's connection. See the Troubleshooting section below for the fix.",
                ),
            );
        },
        Some(t) => t,
    };
    let empty: JsonFields = Vec::new();
    let doc = parse_json_objects(text);
    let fields: &JsonFields = match &doc {
        Some(d) => if !d.is_array && d.items.len() > 0 { &d.items[0] } else { &empty },
        None => &empty,
    };
    assert(fields_view(*fields) == rule_fields(text@)) by {
        assert(fields_view(empty) =~= Seq::<(Seq<char>, JsonScalarView)>::empty());
    }
    let en = field(fields, "Enabled");
    let enabled = match en {
        Some(JsonScalar::Flag(b)) => *b,
        Some(JsonScalar::Text(s)) => same_chars(s.as_str(), "True"),
        _ => false,
    };
    let action: &str = match field(fields, "Action") {
        Some(JsonScalar::Text(a)) => a.as_str(),
        _ => "",
    };
    proof {
        reveal_strlit("");
    }
    assert(enabled == rule_enabled(rule_fields(text@)));
    assert(action@ == rule_action(rule_fields(text@)));
    if enabled && eq_ascii_lower(action, "allow") {
        check("Firewall rule", "ok", String::from_str("An enabled Allow rule exists for this app."))
    } else {
        check(
            "Firewall rule",
            "warn",
            String::from_str(
                "A rule exists but isn't both Enabled and set to Allow. See the Troubleshooting section below for the fix.",
            ),
        )
    }
}

/// `obj` is a network set to Public that names its interface.
pub open spec fn is_public_network(obj: Seq<(Seq<char>, JsonScalarView)>) -> bool {
    &&& field_of(obj, "NetworkCategory"@) == Some(JsonScalarView::Text("Public"@))
    &&& field_of(obj, "InterfaceAlias"@) matches Some(JsonScalarView::Text(_))
}

/// The Public interface names are none exactly when no object is a Public
/// network.
proof fn lemma_public_aliases_empty(items: Seq<Seq<(Seq<char>, JsonScalarView)>>)
    ensures
        public_aliases(items).len() == 0 <==> !exists|i: int| 0 <= i < items.len() && is_public_network(
            #[trigger] items[i],
        ),
    decreases items.len(),
{
    if items.len() > 0 {
        let prev = items.drop_last();
        lemma_public_aliases_empty(prev);
        if exists|i: int| 0 <= i < prev.len() && is_public_network(#[trigger] prev[i]) {
            let i = choose|i: int| 0 <= i < prev.len() && is_public_network(#[trigger] prev[i]);
            assert(items[i] == prev[i]);
        }
        if exists|i: int| 0 <= i < items.len() && is_public_network(#[trigger] items[i]) {
            let i = choose|i: int| 0 <= i < items.len() && is_public_network(#[trigger] items[i]);
            if i < prev.len() {
                assert(prev[i] == items[i]);
            }
        }
    }
}

/// The network check warns exactly when a network is set to Public: when
/// the profile query printed JSON, whether one object or an array of them,
/// the status is `warn` if some object has `NetworkCategory` "Public" and an
/// `InterfaceAlias`, and `ok` otherwise.
pub proof fn lemma_public_network_warns(text: Seq<char>)
    requires
        json_objects(text) is Some,
    ensures
        network_check_view(Some(text)).1 == (if exists|i: int|
            0 <= i < json_objects(text).unwrap().1.len() && is_public_network(
                #[trigger] json_objects(text).unwrap().1[i],
            ) {
            "warn"@
        } else {
            "ok"@
        }),
{
    lemma_public_aliases_empty(json_objects(text).unwrap().1);
}

/// A single Public network is named first in the warning: when the profile
/// query printed one object (alone, or as an array of one) with
/// `NetworkCategory` "Public" and `InterfaceAlias` `a`, the detail begins
/// with `a` and " is set to Public.".
pub proof fn lemma_single_public_network_is_named(
    text: Seq<char>,
    is_array: bool,
    obj: Seq<(Seq<char>, JsonScalarView)>,
    a: Seq<char>,
)
    requires
        json_objects(text) == Some((is_array, seq![obj])),
        field_of(obj, "NetworkCategory"@) == Some(JsonScalarView::Text("Public"@)),
        field_of(obj, "InterfaceAlias"@) == Some(JsonScalarView::Text(a)),
    ensures
        network_check_view(Some(text)).1 == "warn"@,
        network_check_view(Some(text)).2.subrange(0, a.len() + 18int) == a + " is set to Public."@,
{
    reveal_strlit(" is set to Public.");
    let items = seq![obj];
    assert(items.drop_last() =~= Seq::<Seq<(Seq<char>, JsonScalarView)>>::empty());
    assert(public_aliases(items.drop_last()) =~= Seq::<Seq<char>>::empty());
    assert(public_aliases(items) =~= seq![a]);
    assert(joined(seq![a], ", "@) == a);
    let long = " is set to Public. Windows Firewall blocks a lot more on Public networks, which can silently stop the PS5 from reaching this app. Switch it to Private in Settings > Network & Internet."@;
    reveal_strlit(" is set to Public. Windows Firewall blocks a lot more on Public networks, which can silently stop the PS5 from reaching this app. Switch it to Private in Settings > Network & Internet.");
    assert((a + long).subrange(0, a.len() + 18int) =~= a + " is set to Public."@);
}

/// The firewall check is ok only for an enabled rule whose action is
/// `Allow`, in any letter case: when the rule query printed one JSON object,
/// the status is `ok` exactly when its `Enabled` is `true` (or the text
/// "True") and its `Action` is a text that lowercases to "allow"; any other
/// action, `Block` among them, gets `warn`.
pub proof fn lemma_firewall_ok_only_for_enabled_allow(text: Seq<char>, obj: Seq<(Seq<char>, JsonScalarView)>)
    requires
        json_objects(text) == Some((false, seq![obj])),
    ensures
        firewall_check_view(Some(text)).1 == (if (field_of(obj, "Enabled"@) == Some(JsonScalarView::Flag(true))
            || field_of(obj, "Enabled"@) == Some(JsonScalarView::Text("True"@))) && (field_of(obj, "Action"@) matches Some(
            JsonScalarView::Text(a),
        ) && ascii_lower(a) == "allow"@) {
            "ok"@
        } else {
            "warn"@
        }),
{
    reveal_strlit("allow");
    assert(rule_fields(text) == obj);
    if !(field_of(obj, "Action"@) matches Some(JsonScalarView::Text(_))) {
        assert(rule_action(obj) =~= Seq::<char>::empty());
        assert(ascii_lower(rule_action(obj)).len() == 0);
        assert(ascii_lower(rule_action(obj)) != "allow"@);
    }
}

/// Without one rule object there is nothing to allow: when the rule query
/// printed something that is not JSON, or a JSON array, the firewall check
/// warns.
pub proof fn lemma_firewall_warns_without_one_rule(text: Seq<char>)
    requires
        match json_objects(text) {
            Some(doc) => doc.0,
            None => true,
        },
    ensures
        firewall_check_view(Some(text)).1 == "warn"@,
{
    reveal_strlit("Enabled");
    assert(rule_fields(text) =~= Seq::<(Seq<char>, JsonScalarView)>::empty());
    assert(field_of(rule_fields(text), "Enabled"@) is None);
}

} // verus!
