//! Where a user's keys are kept, and the keys that the texts of key files give.

use crate::auth::{auth_models, coherent, AdbAuth, AuthModel};
use crate::keys::{load_private_key_from_pem, loaded_key, AuthError, AuthErrorModel};
use crate::text::{chars_of, ends_with, is_suffix, owned, string_views};
use vstd::prelude::*;

verus! {

/// A path with a name behind it.
pub open spec fn joined(base: Seq<char>, name: Seq<char>) -> Seq<char> {
    if base.len() == 0 {
        name
    } else if is_suffix("/"@, base) {
        base + name
    } else {
        base + "/"@ + name
    }
}

fn join(base: &str, name: &str) -> (r: String)
    ensures
        r@ == joined(base@, name@),
{
    let chars = chars_of(base);
    let mut r = owned(base);
    if chars.len() > 0 && !ends_with(chars.as_slice(), "/") {
        r.append("/");
    }
    r.append(name);
    assert(r@ =~= joined(base@, name@));
    r
}

/// The error when there is no home directory.
pub open spec fn no_home() -> AuthErrorModel {
    AuthErrorModel::InvalidPublicKeyFormat("HOME not set; cannot locate .android dir"@)
}

/// The directory for keys, in the home directory.
pub fn adb_get_android_dir_path(home: Option<&str>) -> (r: Result<String, AuthError>)
    ensures
        match home {
            Some(h) => r matches Ok(p) && p@ == joined(h@, ".android"@),
            None => r matches Err(e) && e@ == no_home(),
        },
{
    match home {
        Some(h) => Ok(join(h, ".android")),
        None => Err(
            AuthError::InvalidPublicKeyFormat(owned("HOME not set; cannot locate .android dir")),
        ),
    }
}

/// The file with the user's private key.
pub fn adb_auth_get_userkey_path(home: Option<&str>) -> (r: Result<String, AuthError>)
    ensures
        match home {
            Some(h) => r matches Ok(p) && p@ == joined(joined(h@, ".android"@), "adbkey"@),
            None => r matches Err(e) && e@ == no_home(),
        },
{
    let dir = adb_get_android_dir_path(home)?;
    Ok(join(dir.as_str(), "adbkey"))
}

/// The file with the public key that belongs to a file with a private key.
pub fn public_key_path(private_path: &str) -> (r: String)
    ensures
        r@ == private_path@ + ".pub"@,
{
    let mut r = owned(private_path);
    r.append(".pub");
    r
}

/// The key in the text of a file, with a label.
pub fn load_userkey(pem: &str, label: &str) -> (r: Result<AdbAuth, AuthError>)
    ensures
        match loaded_key(pem@) {
            Some(d) => r matches Ok(a) && is_labelled(a@, d, label@),
            None => r matches Err(e) && e@ == AuthErrorModel::InvalidPublicKeyFormat(
                "Failed to parse RSA private key PEM"@,
            ),
        },
{
    let private_key = load_private_key_from_pem(pem)?;
    Ok(AdbAuth::new(private_key, label))
}

/// A key is the one with these bytes, with a label.
pub open spec fn is_labelled(m: AuthModel, der: Seq<u8>, label: Seq<char>) -> bool {
    m.der == der && m.label == label && coherent(m)
}

/// The keys in a list of texts, those that hold none left out.
pub open spec fn loaded_keys(pems: Seq<Seq<char>>) -> Seq<Seq<u8>>
    decreases pems.len(),
{
    if pems.len() == 0 {
        Seq::empty()
    } else {
        let before = loaded_keys(pems.drop_last());
        match loaded_key(pems.last()) {
            Some(d) => before.push(d),
            None => before,
        }
    }
}

/// A list of keys is that of these bytes, each with the same label.
pub open spec fn are_labelled(v: Seq<AuthModel>, ders: Seq<Seq<u8>>, label: Seq<char>) -> bool {
    &&& v.len() == ders.len()
    &&& forall|i: int| 0 <= i < v.len() ==> is_labelled(#[trigger] v[i], ders[i], label)
}

/// The keys in the texts of the vendors' key files, in their order. A text that holds no key is
/// passed over.
pub fn load_vendor_keys_only(pems: &[String], label: &str) -> (r: Vec<AdbAuth>)
    ensures
        are_labelled(auth_models(r@), loaded_keys(string_views(pems@)), label@),
{
    let ghost views = string_views(pems@);
    let mut out: Vec<AdbAuth> = Vec::new();
    let mut i: usize = 0;
    while i < pems.len()
        invariant
            i <= pems@.len(),
            views == string_views(pems@),
            are_labelled(auth_models(out@), loaded_keys(views.take(i as int)), label@),
        decreases pems@.len() - i,
    {
        proof {
            assert(views.take(i + 1).drop_last() =~= views.take(i as int));
            assert(views.take(i + 1).last() == pems@[i as int]@);
        }
        let ghost before = auth_models(out@);
        match load_userkey(pems[i].as_str(), label) {
            Ok(a) => {
                let ghost m = a@;
                out.push(a);
                assert(auth_models(out@) =~= before.push(m));
            },
            Err(_) => {},
        }
        i = i + 1;
    }
    assert(views.take(i as int) =~= views);
    out
}

/// All the keys: the user's first, then the vendors'.
pub fn load_all_keys(user_pem: &str, vendor_pems: &[String], label: &str) -> (r: Result<
    Vec<AdbAuth>,
    AuthError,
>)
    ensures
        match loaded_key(user_pem@) {
            Some(d) => r matches Ok(keys) && are_labelled(
                auth_models(keys@),
                seq![d] + loaded_keys(string_views(vendor_pems@)),
                label@,
            ),
            None => r matches Err(e) && e@ == AuthErrorModel::InvalidPublicKeyFormat(
                "Failed to parse RSA private key PEM"@,
            ),
        },
{
    let user = load_userkey(user_pem, label)?;
    let mut keys: Vec<AdbAuth> = Vec::new();
    keys.push(user);
    let mut vendor = load_vendor_keys_only(vendor_pems, label);
    let ghost vendor_models = auth_models(vendor@);
    keys.append(&mut vendor);
    assert(auth_models(keys@) =~= seq![user@] + vendor_models);
    Ok(keys)
}

/// A file in a directory: the directory, one slash, and the name.
pub proof fn files_stand_in_directories(dir: Seq<char>, name: Seq<char>)
    requires
        dir.len() > 0,
        dir.last() != '/',
    ensures
        joined(dir, name) == dir + seq!['/'] + name,
        joined(dir + seq!['/'], name) == dir + seq!['/'] + name,
        joined(Seq::empty(), name) == name,
{
    reveal_strlit("/");
    assert("/"@ =~= seq!['/']);
    let with = dir + seq!['/'];
    assert(with.subrange(with.len() - 1, with.len() as int) =~= "/"@);
    if is_suffix("/"@, dir) {
        assert(dir.subrange(dir.len() - 1, dir.len() as int)[0] == dir.last());
    }
}

/// Of some key files every one that can be read is loaded, in their order.
pub proof fn readable_keys_are_loaded(a: Seq<Seq<char>>, pem: Seq<char>)
    ensures
        loaded_keys(Seq::empty()) == Seq::<Seq<u8>>::empty(),
        loaded_keys(a.push(pem)) == loaded_keys(a) + match loaded_key(pem) {
            Some(d) => seq![d],
            None => Seq::empty(),
        },
{
    assert(a.push(pem).drop_last() =~= a);
    assert(a.push(pem).last() == pem);
    assert(loaded_keys(a) + Seq::<Seq<u8>>::empty() =~= loaded_keys(a));
    if let Some(d) = loaded_key(pem) {
        assert(loaded_keys(a).push(d) =~= loaded_keys(a) + seq![d]);
    }
}

} // verus!
