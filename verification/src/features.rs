//! Feature negotiation.
//!
//! Two feature surfaces exist and must not be mixed up: the connection banner, which says
//! what each end of a device transport can speak, and the list that a host reports. Only
//! features that are implemented end to end are announced, so that a peer never trusts a
//! capability that then fails.

use crate::text::{
    char_views, chars_eq, chars_of, find_char, find_from, joining_is_undone_by_splitting, lemma_find_from, split,
    split_char, str_eq, string_of, string_views,
};
use vstd::prelude::*;
use vstd::slice::{slice_subrange, slice_to_vec};
use vstd::utf8::encode_utf8;

verus! {

/// `s` without the leading `c`s.
pub open spec fn strip_start(s: Seq<char>, c: char) -> Seq<char>
    decreases s.len(),
{
    if s.len() > 0 && s[0] == c {
        strip_start(s.subrange(1, s.len() as int), c)
    } else {
        s
    }
}

/// `s` without the trailing `c`s.
pub open spec fn strip_end(s: Seq<char>, c: char) -> Seq<char>
    decreases s.len(),
{
    if s.len() > 0 && s[s.len() - 1] == c {
        strip_end(s.subrange(0, s.len() - 1), c)
    } else {
        s
    }
}

/// `s` without the `c`s at its ends.
pub open spec fn strip(s: Seq<char>, c: char) -> Seq<char> {
    strip_end(strip_start(s, c), c)
}

/// Removes the `c`s at both ends.
pub fn strip_char(s: &[char], c: char) -> (r: &[char])
    ensures
        r@ == strip(s@, c),
{
    let mut i: usize = 0;
    assert(s@.subrange(0, s@.len() as int) =~= s@);
    while i < s.len() && s[i] == c
        invariant
            i <= s@.len(),
            strip_start(s@, c) == strip_start(s@.subrange(i as int, s@.len() as int), c),
        decreases s@.len() - i,
    {
        assert(s@.subrange(i as int, s@.len() as int).subrange(1, s@.len() - i)
            =~= s@.subrange(i + 1, s@.len() as int));
        i = i + 1;
    }
    let ghost t = strip_start(s@, c);
    assert(t == s@.subrange(i as int, s@.len() as int));
    let mut j: usize = s.len();
    while j > i && s[j - 1] == c
        invariant
            i <= j <= s@.len(),
            strip_end(t, c) == strip_end(s@.subrange(i as int, j as int), c),
        decreases j,
    {
        assert(s@.subrange(i as int, j as int).subrange(0, j - i - 1) =~= s@.subrange(
            i as int,
            j - 1,
        ));
        j = j - 1;
    }
    slice_subrange(s, i, j)
}

/// The names among comma-separated pieces: each piece without the NULs at its ends, and only
/// those of which something is left.
pub open spec fn names_of(pieces: Seq<Seq<char>>) -> Seq<Seq<char>>
    decreases pieces.len(),
{
    if pieces.len() == 0 {
        seq![]
    } else {
        let rest = names_of(pieces.drop_last());
        let name = strip(pieces.last(), '\0');
        if name.len() > 0 {
            rest.push(name)
        } else {
            rest
        }
    }
}

/// The value of a property `features=value`: one equals sign, behind the key.
pub open spec fn features_value(prop: Seq<char>) -> Option<Seq<char>> {
    let i = find_from(prop, '=', 0);
    let value = prop.subrange(i + 1, prop.len() as int);
    if i < prop.len() && find_from(value, '=', 0) == value.len() && prop.subrange(0, i)
        == "features"@ {
        Some(value)
    } else {
        None
    }
}

/// The features in the properties from index `k` on: those of the first `features=` property.
pub open spec fn features_in(props: Seq<Seq<char>>, k: int) -> Seq<Seq<char>>
    decreases props.len() - k,
{
    if k < 0 || k >= props.len() {
        seq![]
    } else {
        match features_value(props[k]) {
            Some(value) => names_of(split(value, ',')),
            None => features_in(props, k + 1),
        }
    }
}

/// The features that a banner announces: its third colon-separated piece holds properties
/// with semicolons between them.
pub open spec fn banner_features(banner: Seq<char>) -> Seq<Seq<char>> {
    let pieces = split(banner, ':');
    if pieces.len() < 3 {
        seq![]
    } else {
        features_in(split(pieces[2], ';'), 0)
    }
}

fn feature_names(value: &[char]) -> (r: Vec<String>)
    ensures
        string_views(r@) == names_of(split(value@, ',')),
{
    let pieces = split_char(value, ',');
    let ghost views = char_views(pieces@);
    let mut r: Vec<String> = Vec::new();
    let mut i: usize = 0;
    assert(views.take(0) =~= seq![]);
    assert(string_views(r@) =~= seq![]);
    while i < pieces.len()
        invariant
            i <= pieces@.len(),
            views == char_views(pieces@),
            string_views(r@) == names_of(views.take(i as int)),
        decreases pieces@.len() - i,
    {
        let ghost before = r@;
        let name = strip_char(pieces[i].as_slice(), '\0');
        assert(views.take(i + 1).drop_last() =~= views.take(i as int));
        assert(views.take(i + 1).last() == pieces@[i as int]@);
        if name.len() > 0 {
            let s = string_of(name);
            r.push(s);
            assert(string_views(r@) =~= string_views(before).push(s@));
        }
        i = i + 1;
    }
    assert(views.take(i as int) =~= views);
    r
}

fn features_property(prop: &[char]) -> (r: Option<Vec<char>>)
    ensures
        match r {
            Some(v) => features_value(prop@) == Some(v@),
            None => features_value(prop@) is None,
        },
{
    proof {
        lemma_find_from(prop@, '=', 0);
    }
    match find_char(prop, '=', 0) {
        Some(i) => {
            let n: usize = prop.len();
            let key = slice_subrange(prop, 0, i);
            let value = slice_subrange(prop, i + 1, n);
            if find_char(value, '=', 0).is_some() {
                return None;
            }
            let wanted = chars_of("features");
            if chars_eq(key, wanted.as_slice()) {
                Some(slice_to_vec(value))
            } else {
                None
            }
        },
        None => None,
    }
}

/// Reads the features out of a connection banner. Properties that are not `key=value` are
/// ignored.
pub fn parse_banner_features(banner: &str) -> (r: Vec<String>)
    ensures
        string_views(r@) == banner_features(banner@),
{
    let chars = chars_of(banner);
    let pieces = split_char(chars.as_slice(), ':');
    let ghost piece_views = char_views(pieces@);
    if pieces.len() < 3 {
        let none: Vec<String> = Vec::new();
        assert(string_views(none@) =~= seq![]);
        return none;
    }
    let props = split_char(pieces[2].as_slice(), ';');
    assert(pieces@[2]@ == piece_views[2]);
    let ghost views = char_views(props@);
    let mut i: usize = 0;
    while i < props.len()
        invariant
            i <= props@.len(),
            views == char_views(props@),
            features_in(views, i as int) == banner_features(banner@),
        decreases props@.len() - i,
    {
        assert(views[i as int] == props@[i as int]@);
        match features_property(props[i].as_slice()) {
            Some(value) => {
                return feature_names(value.as_slice());
            },
            None => {},
        }
        i = i + 1;
    }
    let none: Vec<String> = Vec::new();
    assert(string_views(none@) =~= seq![]);
    none
}

/// The views of a list of string slices.
pub open spec fn str_views(v: Seq<&str>) -> Seq<Seq<char>> {
    Seq::new(v.len(), |i: int| v[i]@)
}

/// The features that this host implements.
pub open spec fn host_features() -> Seq<Seq<char>> {
    seq![
        "shell_v2"@,
        "cmd"@,
        "stat_v2"@,
        "ls_v2"@,
        "sendrecv_v2"@,
        "sendrecv_v2_brotli"@,
        "sendrecv_v2_lz4"@,
        "sendrecv_v2_zstd"@,
        "sendrecv_v2_dry_run_send"@,
        "fixed_push_symlink_timestamp"@,
    ]
}

/// A feature can be used if both the device and this host have it.
pub fn can_use_feature(device_features: &[String], feature: &str) -> (r: bool)
    ensures
        r == (string_views(device_features@).contains(feature@) && host_features().contains(
            feature@,
        )),
{
    let ghost device = string_views(device_features@);
    let mut found = false;
    let mut i: usize = 0;
    while i < device_features.len()
        invariant
            i <= device_features@.len(),
            device == string_views(device_features@),
            found == exists|k: int| 0 <= k < i && device[k] == feature@,
        decreases device_features@.len() - i,
    {
        if str_eq(device_features[i].as_str(), feature) {
            assert(device[i as int] == feature@);
            found = true;
        }
        i = i + 1;
    }
    assert(found == device.contains(feature@));
    let host = host_supported_features();
    let ghost views = str_views(host@);
    let mut offered = false;
    let mut j: usize = 0;
    while j < host.len()
        invariant
            j <= host@.len(),
            views == str_views(host@),
            offered == exists|k: int| 0 <= k < j && views[k] == feature@,
        decreases host@.len() - j,
    {
        if str_eq(host[j], feature) {
            assert(views[j as int] == feature@);
            offered = true;
        }
        j = j + 1;
    }
    assert(offered == views.contains(feature@));
    found && offered
}

/// The features that this host implements and may announce. Left out, because they are not
/// implemented, are among others `abb`, `abb_exec`, `apex`, `libusb` and `push_sync`.
pub fn host_supported_features() -> (r: Vec<&'static str>)
    ensures
        str_views(r@) == host_features(),
{
    let mut r: Vec<&'static str> = Vec::new();
    r.push("shell_v2");
    r.push("cmd");
    r.push("stat_v2");
    r.push("ls_v2");
    r.push("sendrecv_v2");
    r.push("sendrecv_v2_brotli");
    r.push("sendrecv_v2_lz4");
    r.push("sendrecv_v2_zstd");
    r.push("sendrecv_v2_dry_run_send");
    r.push("fixed_push_symlink_timestamp");
    assert(str_views(r@) =~= host_features());
    r
}

/// Texts with a comma between each two of them.
pub open spec fn joined(parts: Seq<Seq<char>>) -> Seq<char>
    decreases parts.len(),
{
    if parts.len() == 0 {
        seq![]
    } else if parts.len() == 1 {
        parts[0]
    } else {
        joined(parts.drop_last()) + seq![','] + parts.last()
    }
}

/// Joins features with commas.
pub fn features_to_string(features: &[&str]) -> (r: String)
    ensures
        r@ == joined(str_views(features@)),
{
    let ghost views = str_views(features@);
    let mut r = String::new();
    let mut i: usize = 0;
    assert(views.take(0) =~= seq![]);
    assert(r@ =~= seq![]);
    while i < features.len()
        invariant
            i <= features@.len(),
            views == str_views(features@),
            r@ == joined(views.take(i as int)),
        decreases features@.len() - i,
    {
        assert(views.take(i + 1).drop_last() =~= views.take(i as int));
        if i > 0 {
            r.push(',');
        }
        r.append(features[i]);
        i = i + 1;
        assert(r@ =~= joined(views.take(i as int)));
    }
    assert(views.take(i as int) =~= views);
    r
}

/// The banner of a host with the given features.
pub open spec fn host_banner(features: Seq<Seq<char>>) -> Seq<char> {
    "host::features="@ + joined(features)
}

/// The payload of a host's connection packet: `host::features=` and the features.
pub fn host_cnxn_payload() -> (r: Vec<u8>)
    ensures
        r@ == encode_utf8(host_banner(host_features())),
{
    let mut s = String::new();
    s.append("host::features=");
    let features = host_supported_features();
    let list = features_to_string(features.as_slice());
    s.append(list.as_str());
    assert(s@ =~= host_banner(host_features()));
    slice_to_vec(s.as_str().as_bytes())
}

/// A name that a banner can carry: not empty, without separators, and without a NUL at its
/// ends.
pub open spec fn plain_name(s: Seq<char>) -> bool {
    &&& s.len() > 0
    &&& forall|i: int|
        0 <= i < s.len() ==> (#[trigger] s[i]) != ',' && s[i] != ':' && s[i] != ';' && s[i] != '='
    &&& s[0] != '\0'
    &&& s[s.len() - 1] != '\0'
}

proof fn lemma_find_absent(s: Seq<char>, c: char, i: int)
    requires
        0 <= i <= s.len(),
        forall|k: int| i <= k < s.len() ==> s[k] != c,
    ensures
        find_from(s, c, i) == s.len(),
    decreases s.len() - i,
{
    if i < s.len() {
        lemma_find_absent(s, c, i + 1);
    }
}

proof fn lemma_find_at(s: Seq<char>, c: char, i: int, j: int)
    requires
        0 <= i <= j < s.len(),
        s[j] == c,
        forall|k: int| i <= k < j ==> s[k] != c,
    ensures
        find_from(s, c, i) == j,
    decreases j - i,
{
    if i < j {
        lemma_find_at(s, c, i + 1, j);
    }
}

proof fn lemma_split_absent(s: Seq<char>, c: char)
    requires
        forall|k: int| 0 <= k < s.len() ==> s[k] != c,
    ensures
        split(s, c) == seq![s],
{
    lemma_find_absent(s, c, 0);
}

proof fn lemma_split_concat(a: Seq<char>, b: Seq<char>, c: char)
    requires
        forall|k: int| 0 <= k < b.len() ==> b[k] != c,
    ensures
        split(a + seq![c] + b, c) == split(a, c).push(b),
    decreases a.len(),
{
    let s = a + seq![c] + b;
    lemma_find_from(a, c, 0);
    let i = find_from(a, c, 0);
    if i < a.len() {
        lemma_find_at(s, c, 0, i);
        let rest = a.subrange(i + 1, a.len() as int);
        lemma_split_concat(rest, b, c);
        assert(s.subrange(i + 1, s.len() as int) =~= rest + seq![c] + b);
        assert(s.subrange(0, i) =~= a.subrange(0, i));
        assert(split(s, c) =~= split(a, c).push(b));
    } else {
        assert(s[a.len() as int] == c);
        assert forall|k: int| 0 <= k < a.len() implies s[k] != c by {
            assert(s[k] == a[k]);
        }
        lemma_find_at(s, c, 0, a.len() as int);
        assert(s.subrange(0, a.len() as int) =~= a);
        assert(s.subrange(a.len() as int + 1, s.len() as int) =~= b);
        lemma_split_absent(b, c);
        assert(split(s, c) =~= split(a, c).push(b));
    }
}

proof fn lemma_split_joined(names: Seq<Seq<char>>)
    requires
        names.len() > 0,
        forall|i: int| 0 <= i < names.len() ==> plain_name(#[trigger] names[i]),
    ensures
        split(joined(names), ',') == names,
    decreases names.len(),
{
    if names.len() == 1 {
        assert(plain_name(names[0]));
        lemma_split_absent(names[0], ',');
        assert(split(joined(names), ',') =~= names);
    } else {
        let front = names.drop_last();
        assert forall|i: int| 0 <= i < front.len() implies plain_name(#[trigger] front[i]) by {
            assert(plain_name(names[i]));
        }
        lemma_split_joined(front);
        assert(plain_name(names[names.len() - 1]));
        lemma_split_concat(joined(front), names.last(), ',');
        assert(split(joined(names), ',') =~= names);
    }
}

proof fn lemma_names_of_plain(names: Seq<Seq<char>>)
    requires
        forall|i: int| 0 <= i < names.len() ==> plain_name(#[trigger] names[i]),
    ensures
        names_of(names) == names,
    decreases names.len(),
{
    if names.len() > 0 {
        let front = names.drop_last();
        assert forall|i: int| 0 <= i < front.len() implies plain_name(#[trigger] front[i]) by {
            assert(plain_name(names[i]));
        }
        lemma_names_of_plain(front);
        assert(plain_name(names[names.len() - 1]));
        assert(front.push(names.last()) =~= names);
    } else {
        assert(names_of(names) =~= names);
    }
}

proof fn lemma_joined_chars(names: Seq<Seq<char>>)
    requires
        forall|i: int| 0 <= i < names.len() ==> plain_name(#[trigger] names[i]),
    ensures
        forall|k: int|
            0 <= k < joined(names).len() ==> (#[trigger] joined(names)[k]) != ':' && joined(
                names,
            )[k] != ';' && joined(names)[k] != '=',
    decreases names.len(),
{
    if names.len() > 0 {
        assert(plain_name(names[names.len() - 1]));
        if names.len() > 1 {
            let front = names.drop_last();
            assert forall|i: int| 0 <= i < front.len() implies plain_name(#[trigger] front[i]) by {
                assert(plain_name(names[i]));
            }
            lemma_joined_chars(front);
            let all = joined(names);
            assert forall|k: int| 0 <= k < all.len() implies (#[trigger] all[k]) != ':' && all[k]
                != ';' && all[k] != '=' by {
                let n = joined(front).len();
                if k < n {
                    assert(all[k] == joined(front)[k]);
                } else if k > n {
                    assert(all[k] == names.last()[k - n - 1]);
                }
            }
        }
    }
}

/// A peer reads out of a host's banner exactly the features that the host put into it.
pub proof fn banner_round_trip(names: Seq<Seq<char>>)
    requires
        forall|i: int| 0 <= i < names.len() ==> plain_name(#[trigger] names[i]),
    ensures
        banner_features(host_banner(names)) == names,
{
    reveal_strlit("host::features=");
    reveal_strlit("features");
    let list = joined(names);
    lemma_joined_chars(names);
    let prop = seq!['f', 'e', 'a', 't', 'u', 'r', 'e', 's', '='] + list;
    let b = host_banner(names);
    let host = seq!['h', 'o', 's', 't'];
    let empty = Seq::<char>::empty();
    assert(b =~= (host + seq![':'] + empty) + seq![':'] + prop);
    assert forall|k: int| 0 <= k < prop.len() implies prop[k] != ':' && prop[k] != ';' by {
        if k >= 9 {
            assert(prop[k] == list[k - 9]);
        }
    }
    lemma_split_concat(host + seq![':'] + empty, prop, ':');
    lemma_split_concat(host, empty, ':');
    lemma_split_absent(host, ':');
    let pieces = split(b, ':');
    assert(pieces =~= seq![host, empty, prop]);
    lemma_split_absent(prop, ';');
    let props = split(pieces[2], ';');
    assert(props =~= seq![prop]);
    lemma_find_at(prop, '=', 0, 8);
    assert(prop.subrange(0, 8) =~= "features"@);
    assert(prop.subrange(9, prop.len() as int) =~= list);
    lemma_find_absent(list, '=', 0);
    assert(features_value(props[0]) == Some(list));
    if names.len() > 0 {
        lemma_split_joined(names);
        lemma_names_of_plain(names);
    } else {
        lemma_split_absent(list, ',');
        let none = split(list, ',');
        assert(none =~= seq![list]);
        assert(strip(list, '\0').len() == 0);
        assert(none.drop_last() =~= seq![]);
        assert(names_of(none.drop_last()) =~= seq![]);
        assert(names_of(none) =~= names);
    }
}

proof fn lemma_features_value(names: Seq<Seq<char>>)
    requires
        forall|i: int| 0 <= i < names.len() ==> plain_name(#[trigger] names[i]),
    ensures
        features_value("features="@ + joined(names)) == Some(joined(names)),
{
    reveal_strlit("features=");
    reveal_strlit("features");
    let value = joined(names);
    let prop = "features="@ + value;
    lemma_joined_chars(names);
    assert(prop[8] == '=');
    assert forall|k: int| 0 <= k < 8 implies prop[k] != '=' by {
        assert(prop[k] == "features="@[k]);
    }
    lemma_find_at(prop, '=', 0, 8);
    assert(prop.subrange(0, 8) =~= "features"@);
    assert(prop.subrange(9, prop.len() as int) =~= value);
    lemma_find_absent(value, '=', 0);
}

proof fn lemma_no_features(prop: Seq<char>)
    requires
        prop.len() < 9 || prop.take(9) != "features="@,
    ensures
        features_value(prop) is None,
{
    reveal_strlit("features=");
    reveal_strlit("features");
    lemma_find_from(prop, '=', 0);
    let i = find_from(prop, '=', 0);
    if i < prop.len() && prop.subrange(0, i) == "features"@ {
        assert(prop.subrange(0, i).len() == i);
        assert("features"@.len() == 8);
        assert(i == 8);
        assert(prop.take(9) =~= "features="@) by {
            assert forall|k: int| 0 <= k < 9 implies prop.take(9)[k] == "features="@[k] by {
                if k < 8 {
                    assert(prop.subrange(0, 8)[k] == prop[k]);
                    assert("features"@[k] == "features="@[k]);
                }
            }
        }
    }
}

proof fn lemma_features_in(props: Seq<Seq<char>>, k: int, i: int, names: Seq<Seq<char>>)
    requires
        0 <= k <= i < props.len(),
        names.len() > 0,
        forall|j: int| 0 <= j < names.len() ==> plain_name(#[trigger] names[j]),
        props[i] == "features="@ + joined(names),
        forall|j: int| k <= j < i ==> (#[trigger] props[j]).len() < 9 || props[j].take(9)
            != "features="@,
    ensures
        features_in(props, k) == names,
    decreases i - k,
{
    if k == i {
        lemma_features_value(names);
        lemma_split_joined(names);
        lemma_names_of_plain(names);
    } else {
        lemma_no_features(props[k]);
        lemma_features_in(props, k + 1, i, names);
    }
}

/// What a device can do is read from its banner: behind the second colon stand its properties,
/// and the first that is named `features` lists it, wherever it stands.
pub proof fn features_are_read(
    kind: Seq<char>,
    serial: Seq<char>,
    props: Seq<Seq<char>>,
    i: int,
    names: Seq<Seq<char>>,
)
    requires
        !kind.contains(':'),
        !serial.contains(':'),
        0 <= i < props.len(),
        forall|j: int| 0 <= j < props.len() ==> !(#[trigger] props[j]).contains(';'),
        !crate::text::joined(props, ';').contains(':'),
        names.len() > 0,
        forall|j: int| 0 <= j < names.len() ==> plain_name(#[trigger] names[j]),
        props[i] == "features="@ + joined(names),
        forall|j: int| 0 <= j < i ==> (#[trigger] props[j]).len() < 9 || props[j].take(9)
            != "features="@,
    ensures
        banner_features(
            kind + seq![':'] + (serial + seq![':'] + crate::text::joined(props, ';')),
        ) == names,
{
    let rest = crate::text::joined(props, ';');
    let pieces = seq![kind, serial, rest];
    assert(pieces.skip(1).skip(1) =~= seq![rest]);
    assert(crate::text::joined(pieces.skip(1).skip(1), ':') == rest);
    assert(crate::text::joined(pieces.skip(1), ':') =~= serial + seq![':'] + rest);
    assert(crate::text::joined(pieces, ':') =~= kind + seq![':'] + (serial + seq![':'] + rest));
    joining_is_undone_by_splitting(pieces, ':');
    joining_is_undone_by_splitting(props, ';');
    lemma_features_in(props, 0, i, names);
}

/// A banner of less than three parts, or one whose properties name no features, tells none.
pub proof fn other_banners_tell_no_features(banner: Seq<char>, props: Seq<Seq<char>>, k: int)
    requires
        0 <= k <= props.len(),
        forall|j: int| k <= j < props.len() ==> (#[trigger] props[j]).len() < 9 || props[j].take(9)
            != "features="@,
    ensures
        features_in(props, k) == Seq::<Seq<char>>::empty(),
        split(banner, ':').len() < 3 ==> banner_features(banner) == Seq::<Seq<char>>::empty(),
    decreases props.len() - k,
{
    if k < props.len() {
        lemma_no_features(props[k]);
        other_banners_tell_no_features(banner, props, k + 1);
    }
}

/// The host announces these features, and no others.
pub proof fn host_announces_its_features(name: Seq<char>)
    ensures
        host_features().contains(name) <==> {
            ||| name == "shell_v2"@
            ||| name == "cmd"@
            ||| name == "stat_v2"@
            ||| name == "ls_v2"@
            ||| name == "sendrecv_v2"@
            ||| name == "sendrecv_v2_brotli"@
            ||| name == "sendrecv_v2_lz4"@
            ||| name == "sendrecv_v2_zstd"@
            ||| name == "sendrecv_v2_dry_run_send"@
            ||| name == "fixed_push_symlink_timestamp"@
        },
{
    let all = host_features();
    assert(all[0] == "shell_v2"@);
    assert(all[1] == "cmd"@);
    assert(all[2] == "stat_v2"@);
    assert(all[3] == "ls_v2"@);
    assert(all[4] == "sendrecv_v2"@);
    assert(all[5] == "sendrecv_v2_brotli"@);
    assert(all[6] == "sendrecv_v2_lz4"@);
    assert(all[7] == "sendrecv_v2_zstd"@);
    assert(all[8] == "sendrecv_v2_dry_run_send"@);
    assert(all[9] == "fixed_push_symlink_timestamp"@);
}

} // verus!
