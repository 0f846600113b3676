//! Authentication of a host by its RSA keys.

use crate::base64_text::{
    base64_bytes, base64_decode, base64_encode, base64_has_its_characters, base64_round_trip, base64_text,
    is_base64_char,
};
use crate::constants::{A_AUTH, A_AUTH_RSAKEY, A_AUTH_SIGNATURE};
use crate::header::{header_of, AdbMessageHeader};
use crate::keys::{
    bytes_result, can_sign, export_private_key_to_pem, exported_key, generate_rsa_key, is_private_key, is_public_key,
    loaded_key, modulus_has_bits, pkcs1v15_sha1_valid, public_parts, sign_token, token_signature, AuthError,
    AuthErrorModel, PrivateKey, PublicKey, PublicKeyModel, ANDROID_PUBKEY_MODULUS_SIZE,
};
use crate::pubkey::{
    decode_android_pubkey_binary, decoded, encode_android_pubkey_binary, encoding_error, fits_binary, is_encoding,
    modulus_length, pubkey_round_trip,
};
use crate::text::{
    char_views, chars_of, from_utf8_lossy, is_white, joined, joining_is_undone_by_splitting, lossy_text, owned, split,
    split_char, string_of, string_views, trim, trim_end, trim_start, trimmed, utf8_round_trip, white,
};
use vstd::prelude::*;
use vstd::slice::{slice_subrange, slice_to_vec};
use vstd::utf8::{decode_utf8, encode_utf8};

verus! {

/// Characters that are removed at the ends of a text.
pub enum Fringe {
    /// White space and NULs.
    WhiteOrNul,
    /// NULs and line ends.
    NulOrLineEnd,
}

impl Fringe {
    /// The character belongs to the fringe.
    pub open spec fn has(self, c: char) -> bool {
        match self {
            Fringe::WhiteOrNul => is_white(c) || c == '\0',
            Fringe::NulOrLineEnd => c == '\0' || c == '\r' || c == '\n',
        }
    }

    fn contains(&self, c: char) -> (r: bool)
        ensures
            r == self.has(c),
    {
        match self {
            Fringe::WhiteOrNul => white(c) || c == '\0',
            Fringe::NulOrLineEnd => c == '\0' || c == '\r' || c == '\n',
        }
    }
}

/// `s` without the fringe at its start.
pub open spec fn cut_start(s: Seq<char>, f: Fringe) -> Seq<char>
    decreases s.len(),
{
    if s.len() > 0 && f.has(s[0]) {
        cut_start(s.subrange(1, s.len() as int), f)
    } else {
        s
    }
}

/// `s` without the fringe at its end.
pub open spec fn cut_end(s: Seq<char>, f: Fringe) -> Seq<char>
    decreases s.len(),
{
    if s.len() > 0 && f.has(s[s.len() - 1]) {
        cut_end(s.subrange(0, s.len() - 1), f)
    } else {
        s
    }
}

/// `s` without the fringe at its ends.
pub open spec fn cut(s: Seq<char>, f: Fringe) -> Seq<char> {
    cut_end(cut_start(s, f), f)
}

fn cut_fringe(s: &[char], f: Fringe) -> (r: &[char])
    ensures
        r@ == cut(s@, f),
{
    let mut i: usize = 0;
    assert(s@.subrange(0, s@.len() as int) =~= s@);
    while i < s.len() && f.contains(s[i])
        invariant
            i <= s@.len(),
            cut_start(s@, f) == cut_start(s@.subrange(i as int, s@.len() as int), f),
        decreases s@.len() - i,
    {
        assert(s@.subrange(i as int, s@.len() as int).subrange(1, s@.len() - i)
            =~= s@.subrange(i + 1, s@.len() as int));
        i = i + 1;
    }
    let ghost t = cut_start(s@, f);
    assert(t == s@.subrange(i as int, s@.len() as int));
    let mut j: usize = s.len();
    while j > i && f.contains(s[j - 1])
        invariant
            i <= j <= s@.len(),
            cut_end(t, f) == cut_end(s@.subrange(i as int, j as int), f),
        decreases j,
    {
        assert(s@.subrange(i as int, j as int).subrange(0, j - i - 1) =~= s@.subrange(
            i as int,
            j - 1,
        ));
        j = j - 1;
    }
    slice_subrange(s, i, j)
}

proof fn lemma_cut_start(s: Seq<char>, f: Fringe)
    ensures
        cut_start(s, f).len() > 0 ==> !f.has(cut_start(s, f)[0]),
    decreases s.len(),
{
    if s.len() > 0 && f.has(s[0]) {
        lemma_cut_start(s.subrange(1, s.len() as int), f);
    }
}

proof fn lemma_cut_end(s: Seq<char>, f: Fringe)
    ensures
        cut_end(s, f).len() > 0 ==> !f.has(cut_end(s, f)[cut_end(s, f).len() - 1]) && cut_end(
            s,
            f,
        )[0] == s[0],
    decreases s.len(),
{
    if s.len() > 0 && f.has(s[s.len() - 1]) {
        lemma_cut_end(s.subrange(0, s.len() - 1), f);
    }
}

proof fn lemma_cut(s: Seq<char>, f: Fringe)
    ensures
        cut(s, f).len() > 0 ==> !f.has(cut(s, f)[0]) && !f.has(cut(s, f)[cut(s, f).len() - 1]),
{
    lemma_cut_start(s, f);
    lemma_cut_end(cut_start(s, f), f);
}

/// A key in base 64, a blank, a label without its fringe, and a NUL.
pub open spec fn key_line(b64: Seq<char>, label: Seq<char>) -> Seq<char> {
    b64 + seq![' '] + cut(label, Fringe::WhiteOrNul) + seq!['\0']
}

/// A run of bytes is the text form of a public key with a label.
pub open spec fn is_key_string(k: PublicKeyModel, label: Seq<char>, bytes: Seq<u8>) -> bool {
    exists|bin: Seq<u8>| #[trigger]
        is_encoding(k, bin) && bytes == encode_utf8(key_line(base64_text(bin), label))
}

/// The first white space at or after `i`, or the length of `s`.
pub open spec fn first_white(s: Seq<char>, i: int) -> int
    decreases s.len() - i,
{
    if i < 0 || i >= s.len() {
        s.len() as int
    } else if is_white(s[i]) {
        i
    } else {
        first_white(s, i + 1)
    }
}

/// The public key and the label in a text, or why there are none.
pub open spec fn parsed_key(text: Seq<char>) -> Result<(PublicKeyModel, Seq<char>), AuthErrorModel> {
    let clean = cut(text, Fringe::NulOrLineEnd);
    let i = first_white(clean, 0);
    let label = if i < clean.len() {
        trimmed(clean.subrange(i + 1, clean.len() as int))
    } else {
        seq![]
    };
    match base64_bytes(clean.subrange(0, i)) {
        Err(m) => Err(AuthErrorModel::Base64(m)),
        Ok(bytes) => match decoded(bytes) {
            Ok(k) => Ok((k, label)),
            Err(e) => Err(e),
        },
    }
}

proof fn lemma_first_white(s: Seq<char>, i: int, j: int)
    requires
        0 <= i <= j < s.len(),
        is_white(s[j]),
        forall|k: int| i <= k < j ==> !is_white(s[k]),
    ensures
        first_white(s, i) == j,
    decreases j - i,
{
    if i < j {
        lemma_first_white(s, i + 1, j);
    }
}

proof fn lemma_key_line_parts(b64: Seq<char>, label: Seq<char>)
    requires
        forall|i: int| 0 <= i < b64.len() ==> is_base64_char(#[trigger] b64[i]),
    ensures
        ({
            let clean = cut(key_line(b64, label), Fringe::NulOrLineEnd);
            let l = cut(label, Fringe::WhiteOrNul);
            &&& first_white(clean, 0) == b64.len()
            &&& b64.len() < clean.len()
            &&& clean.subrange(0, b64.len() as int) == b64
            &&& trimmed(clean.subrange(b64.len() as int + 1, clean.len() as int)) == l
        }),
{
    let f = Fringe::NulOrLineEnd;
    let l = cut(label, Fringe::WhiteOrNul);
    lemma_cut(label, Fringe::WhiteOrNul);
    let t = key_line(b64, label);
    let body = b64 + seq![' '] + l;
    assert(t[0] == (if b64.len() > 0 {
        b64[0]
    } else {
        ' '
    }));
    assert(cut_start(t, f) == t);
    assert(t.subrange(0, t.len() - 1) =~= body);
    assert(body[body.len() - 1] == (if l.len() > 0 {
        l[l.len() - 1]
    } else {
        ' '
    }));
    assert(cut_end(body, f) == body);
    assert(cut_end(t, f) == body);
    assert forall|k: int| 0 <= k < b64.len() implies !is_white(body[k]) by {
        assert(body[k] == b64[k]);
    }
    assert(body[b64.len() as int] == ' ');
    lemma_first_white(body, 0, b64.len() as int);
    assert(body.subrange(0, b64.len() as int) =~= b64);
    assert(body.subrange(b64.len() as int + 1, body.len() as int) =~= l);
    assert(trim_start(l) == l);
    assert(trim_end(l) == l);
}

/// Writes a public key as a text: the key in base 64, a blank, the label without white space
/// and NULs at its ends, and a NUL. Parsing the text gives the key and that label.
pub fn encode_adb_public_key_string(public_key: &PublicKey, label: &str) -> (r: Result<
    Vec<u8>,
    AuthError,
>)
    ensures
        is_rsakey_payload(public_key@, label@, bytes_result(r)),
        r matches Ok(v) ==> (fits_binary(public_key@) ==> parsed_key(decode_utf8(v@)) == Ok::<
            (PublicKeyModel, Seq<char>),
            AuthErrorModel,
        >((public_key@, cut(label@, Fringe::WhiteOrNul)))),
{
    let binary = encode_android_pubkey_binary(public_key)?;
    let b64 = base64_encode(binary.as_slice());
    let chars = chars_of(label);
    let trimmed_label = string_of(cut_fringe(chars.as_slice(), Fringe::WhiteOrNul));
    let mut text = String::new();
    text.append(b64.as_str());
    text.push(' ');
    text.append(trimmed_label.as_str());
    text.push('\0');
    proof {
        assert(text@ =~= key_line(b64@, label@));
        assert(is_encoding(public_key@, binary@));
        utf8_round_trip(text@);
        base64_has_its_characters(binary@);
        base64_round_trip(binary@);
        lemma_key_line_parts(b64@, label@);
        if fits_binary(public_key@) {
            pubkey_round_trip(public_key@, binary@, seq![]);
            assert(binary@ + seq![] =~= binary@);
        }
    }
    Ok(slice_to_vec(text.as_str().as_bytes()))
}

/// A result is the text form of a public key, or the error where it has none.
pub open spec fn is_rsakey_payload(
    k: PublicKeyModel,
    label: Seq<char>,
    r: Result<Seq<u8>, AuthErrorModel>,
) -> bool {
    match encoding_error(k) {
        Some(m) => r == Err::<Seq<u8>, AuthErrorModel>(AuthErrorModel::InvalidPublicKeyFormat(m)),
        None => r matches Ok(bytes) && is_key_string(k, label, bytes),
    }
}

/// Reads a public key and its label from a text.
pub fn parse_adb_public_key_string(key_str: &str) -> (r: Result<(PublicKey, String), AuthError>)
    ensures
        match r {
            Ok((k, label)) => parsed_key(key_str@) == Ok::<
                (PublicKeyModel, Seq<char>),
                AuthErrorModel,
            >((k@, label@)),
            Err(e) => parsed_key(key_str@) == Err::<(PublicKeyModel, Seq<char>), AuthErrorModel>(
                e@,
            ),
        },
{
    let chars = chars_of(key_str);
    let clean = cut_fringe(chars.as_slice(), Fringe::NulOrLineEnd);
    let mut i: usize = 0;
    while i < clean.len() && !white(clean[i])
        invariant
            i <= clean@.len(),
            first_white(clean@, 0) == first_white(clean@, i as int),
        decreases clean@.len() - i,
    {
        i = i + 1;
    }
    let b64 = string_of(slice_subrange(clean, 0, i));
    let label = if i < clean.len() {
        string_of(trim(slice_subrange(clean, i + 1, clean.len())))
    } else {
        String::new()
    };
    assert(label@ =~= if i < clean@.len() {
        trimmed(clean@.subrange(i + 1, clean@.len() as int))
    } else {
        seq![]
    });
    match base64_decode(b64.as_str()) {
        Err(m) => Err(AuthError::Base64(m)),
        Ok(bytes) => {
            let key = decode_android_pubkey_binary(bytes.as_slice())?;
            Ok((key, label))
        },
    }
}

/// The pieces of which something is left.
pub open spec fn nonempty(pieces: Seq<Seq<char>>) -> Seq<Seq<char>>
    decreases pieces.len(),
{
    if pieces.len() == 0 {
        seq![]
    } else if pieces.last().len() > 0 {
        nonempty(pieces.drop_last()).push(pieces.last())
    } else {
        nonempty(pieces.drop_last())
    }
}

/// The paths in a list of vendor keys: split at colons, without empty entries. `None` is a
/// list that is not set.
pub fn get_vendor_keys(raw: Option<&str>) -> (r: Vec<String>)
    ensures
        string_views(r@) == match raw {
            Some(s) => nonempty(split(s@, ':')),
            None => seq![],
        },
{
    let mut r: Vec<String> = Vec::new();
    assert(string_views(r@) =~= seq![]);
    match raw {
        None => {},
        Some(s) => {
            let chars = chars_of(s);
            let pieces = split_char(chars.as_slice(), ':');
            let ghost views = char_views(pieces@);
            let mut i: usize = 0;
            assert(views.take(0) =~= seq![]);
            while i < pieces.len()
                invariant
                    i <= pieces@.len(),
                    views == char_views(pieces@),
                    string_views(r@) == nonempty(views.take(i as int)),
                decreases pieces@.len() - i,
            {
                let ghost before = r@;
                assert(views.take(i + 1).drop_last() =~= views.take(i as int));
                assert(views.take(i + 1).last() == pieces@[i as int]@);
                if pieces[i].len() > 0 {
                    let p = string_of(pieces[i].as_slice());
                    r.push(p);
                    assert(string_views(r@) =~= string_views(before).push(p@));
                }
                i = i + 1;
            }
            assert(views.take(i as int) =~= views);
        },
    }
    r
}

/// The first that is set, or else the default.
pub open spec fn first_of(a: Option<Seq<char>>, b: Option<Seq<char>>, default: Seq<char>) -> Seq<char> {
    match a {
        Some(s) => s,
        None => match b {
            Some(s) => s,
            None => default,
        },
    }
}

/// The view of an optional string slice.
pub open spec fn opt_str(o: Option<&str>) -> Option<Seq<char>> {
    match o {
        Some(s) => Some(s@),
        None => None,
    }
}

/// The label of a key: the user and the host, as far as the environment names them.
pub fn default_key_label(user: Option<&str>, logname: Option<&str>, hostname: Option<&str>) -> (r:
    String)
    ensures
        r@ == first_of(opt_str(user), opt_str(logname), "unknown"@) + "@"@ + first_of(
            opt_str(hostname),
            None,
            "localhost"@,
        ),
{
    let mut s = String::new();
    match user {
        Some(u) => s.append(u),
        None => match logname {
            Some(l) => s.append(l),
            None => s.append("unknown"),
        },
    }
    s.append("@");
    match hostname {
        Some(h) => s.append(h),
        None => s.append("localhost"),
    }
    assert(s@ =~= first_of(opt_str(user), opt_str(logname), "unknown"@) + "@"@ + first_of(
        opt_str(hostname),
        None,
        "localhost"@,
    ));
    s
}

/// A text is the text form of a public key and a line end.
pub open spec fn is_public_file(k: PublicKeyModel, label: Seq<char>, text: Seq<char>) -> bool {
    exists|bytes: Seq<u8>| #[trigger]
        is_key_string(k, label, bytes) && text == lossy_text(bytes).push('\n')
}

/// The contents of the two files of a key: the private key and a line end, and the text form
/// of the public key and a line end. Loading the first gives the key.
pub fn key_file_contents(private_key: &PrivateKey, label: &str) -> (r: Result<
    (String, String),
    AuthError,
>)
    ensures
        r matches Ok((private_text, _)) ==> (exported_key(private_key.der_bytes()) matches Ok(p)
            && private_text@ == p.push('\n')),
        r matches Ok((private_text, _)) ==> loaded_key(private_text@) == Some(
            private_key.der_bytes(),
        ),
        r matches Ok((_, public_text)) ==> (public_parts(private_key.der_bytes()) matches Some(k)
            && is_public_file(k, label@, public_text@)),
        r matches Err(e) ==> ((exported_key(private_key.der_bytes()) matches Err(f) && e@ == f) || (
        public_parts(private_key.der_bytes()) matches Some(k) && is_rsakey_payload(
            k,
            label@,
            Err(e@),
        ))),
        exported_key(private_key.der_bytes()) is Ok && (public_parts(
            private_key.der_bytes(),
        ) matches Some(k) && encoding_error(k) is None) ==> r is Ok,
{
    let pem = export_private_key_to_pem(private_key)?;
    let public_key = private_key.to_public_key();
    let payload = encode_adb_public_key_string(&public_key, label)?;
    let mut private_text = String::new();
    private_text.append(pem.as_str());
    private_text.push('\n');
    assert(private_text@ =~= pem@.push('\n'));
    proof {
        lemma_trim_push_white(pem@, '\n');
        assert(loaded_key(private_text@) == Some(private_key.der_bytes()));
    }
    assert(is_key_string(public_key@, label@, payload@));
    let mut public_text = from_utf8_lossy(payload.as_slice());
    public_text.push('\n');
    assert(public_text@ == lossy_text(payload@).push('\n'));
    assert(exists|bytes: Seq<u8>| #[trigger]
        is_key_string(public_key@, label@, bytes) && public_text@ == lossy_text(bytes).push('\n'));
    Ok((private_text, public_text))
}

proof fn lemma_trim_push_white(s: Seq<char>, w: char)
    requires
        is_white(w),
    ensures
        trimmed(s.push(w)) == trimmed(s),
    decreases s.len(),
{
    let t = s.push(w);
    if s.len() == 0 {
        assert(t.subrange(1, 1) =~= s);
    } else if is_white(s[0]) {
        let rest = s.subrange(1, s.len() as int);
        lemma_trim_push_white(rest, w);
        assert(t.subrange(1, t.len() as int) =~= rest.push(w));
    } else {
        assert(trim_start(t) == t);
        assert(t.subrange(0, t.len() - 1) =~= s);
    }
}

/// White space that is put behind a PEM text does not change the key that it loads to.
pub proof fn trailing_white_space_is_ignored(pem: Seq<char>, w: char)
    requires
        is_white(w),
    ensures
        loaded_key(pem.push(w)) == loaded_key(pem),
{
    lemma_trim_push_white(pem, w);
}

/// A private key with its public key and its label.
pub struct AdbAuth {
    private_key: PrivateKey,
    public_key: PublicKey,
    label: String,
}

/// What a key with its label is.
pub struct AuthModel {
    pub der: Seq<u8>,
    pub public: PublicKeyModel,
    pub label: Seq<char>,
}

/// The parts of a key belong together.
pub open spec fn coherent(m: AuthModel) -> bool {
    is_private_key(m.der) && public_parts(m.der) == Some(m.public) && is_public_key(m.public)
}

/// A header and a payload.
pub type Message = (AdbMessageHeader, Seq<u8>);

/// What a result that is a message says.
pub open spec fn message_result(r: Result<(AdbMessageHeader, Vec<u8>), AuthError>) -> Result<
    Message,
    AuthErrorModel,
> {
    match r {
        Ok((h, p)) => Ok((h, p@)),
        Err(e) => Err(e@),
    }
}

/// A result is the AUTH message with the signature of a token.
pub open spec fn is_signature_message(
    m: AuthModel,
    token: Seq<u8>,
    r: Result<Message, AuthErrorModel>,
) -> bool {
    match token_signature(m.der, token) {
        Ok(s) => r == Ok::<Message, AuthErrorModel>(
            (header_of(A_AUTH, A_AUTH_SIGNATURE, 0, s), s),
        ) && pkcs1v15_sha1_valid(m.public, token, s) && s.len() == m.public.n.len(),
        Err(e) => r == Err::<Message, AuthErrorModel>(e),
    }
}

/// A result is the AUTH message with the public key.
pub open spec fn is_rsakey_message(m: AuthModel, r: Result<Message, AuthErrorModel>) -> bool {
    match r {
        Ok((h, p)) => h == header_of(A_AUTH, A_AUTH_RSAKEY, 0, p) && is_rsakey_payload(
            m.public,
            m.label,
            Ok(p),
        ),
        Err(e) => is_rsakey_payload(m.public, m.label, Err(e)),
    }
}

impl View for AdbAuth {
    type V = AuthModel;

    closed spec fn view(&self) -> AuthModel {
        AuthModel {
            der: self.private_key.der_bytes(),
            public: self.public_key@,
            label: self.label@,
        }
    }
}

impl Clone for AdbAuth {
    fn clone(&self) -> (r: AdbAuth)
        ensures
            r@ == self@,
    {
        proof {
            use_type_invariant(self);
        }
        AdbAuth {
            private_key: self.private_key.clone(),
            public_key: PublicKey {
                n: slice_to_vec(self.public_key.n.as_slice()),
                e: slice_to_vec(self.public_key.e.as_slice()),
            },
            label: self.label.clone(),
        }
    }
}

impl AdbAuth {
    #[verifier::type_invariant]
    spec fn holds_together(self) -> bool {
        coherent(
            AuthModel {
                der: self.private_key.der_bytes(),
                public: self.public_key@,
                label: self.label@,
            },
        )
    }

    /// A private key with a label.
    pub fn new(private_key: PrivateKey, label: &str) -> (r: AdbAuth)
        ensures
            r@.der == private_key.der_bytes(),
            r@.label == label@,
            coherent(r@),
    {
        let public_key = private_key.to_public_key();
        AdbAuth { private_key, public_key, label: owned(label) }
    }

    /// A new private key of 2048 bits with a label. Which key is a matter of chance.
    pub fn generate(label: &str) -> (r: Result<AdbAuth, AuthError>)
        ensures
            r matches Ok(a) ==> coherent(a@) && a@.label == label@ && modulus_has_bits(
                a@.public,
                2048,
            ) && a@.public.n.len() == ANDROID_PUBKEY_MODULUS_SIZE && can_sign(a@.der),
            r matches Err(e) ==> e@ is Rsa,
    {
        let private_key = generate_rsa_key()?;
        let r = Self::new(private_key, label);
        proof {
            modulus_length(r@.public);
        }
        Ok(r)
    }

    /// The public key.
    pub fn public_key(&self) -> (r: &PublicKey)
        ensures
            r@ == self@.public,
    {
        &self.public_key
    }

    /// The private key.
    pub fn private_key(&self) -> (r: &PrivateKey)
        ensures
            r.der_bytes() == self@.der,
    {
        &self.private_key
    }

    /// The label.
    pub fn label(&self) -> (r: &str)
        ensures
            r@ == self@.label,
    {
        self.label.as_str()
    }

    /// The payload of an AUTH message with the signature of a token.
    pub fn build_signature_payload(&self, token: &[u8]) -> (r: Result<Vec<u8>, AuthError>)
        ensures
            bytes_result(r) == token_signature(self@.der, token@),
            r matches Ok(s) ==> pkcs1v15_sha1_valid(self@.public, token@, s@) && s@.len()
                == self@.public.n.len(),
    {
        proof {
            use_type_invariant(self);
        }
        sign_token(&self.private_key, token)
    }

    /// The payload of an AUTH message with the public key.
    pub fn build_rsakey_payload(&self) -> (r: Result<Vec<u8>, AuthError>)
        ensures
            is_rsakey_payload(self@.public, self@.label, bytes_result(r)),
    {
        encode_adb_public_key_string(&self.public_key, self.label.as_str())
    }

    /// The AUTH message with the signature of a token.
    pub fn make_signature_message(&self, token: &[u8]) -> (r: Result<
        (AdbMessageHeader, Vec<u8>),
        AuthError,
    >)
        ensures
            is_signature_message(self@, token@, message_result(r)),
    {
        let payload = self.build_signature_payload(token)?;
        let header = AdbMessageHeader::new_auth(A_AUTH_SIGNATURE, payload.as_slice());
        Ok((header, payload))
    }

    /// The AUTH message with the public key.
    pub fn make_rsakey_message(&self) -> (r: Result<(AdbMessageHeader, Vec<u8>), AuthError>)
        ensures
            is_rsakey_message(self@, message_result(r)),
    {
        let payload = self.build_rsakey_payload()?;
        let header = AdbMessageHeader::new_auth(A_AUTH_RSAKEY, payload.as_slice());
        Ok((header, payload))
    }
}

/// Which answer a token gets.
pub enum Answer {
    /// A signature with the key of this index.
    Signature(int),
    /// The public key of the first key.
    PublicKey,
}

/// The answer to a token and the state behind it: `next` is the key that is tried next, and
/// `sent` tells whether the public key was sent since the keys were last gone through.
pub open spec fn answer_step(count: int, next: int, sent: bool) -> (Answer, int, bool) {
    if next < count {
        (Answer::Signature(next), next + 1, sent)
    } else if !sent {
        (Answer::PublicKey, next, true)
    } else {
        (Answer::Signature(0), 1, false)
    }
}

/// The state after `k` tokens.
pub open spec fn answers_after(count: int, k: nat) -> (int, bool)
    decreases k,
{
    if k == 0 {
        (0, false)
    } else {
        let (next, sent) = answers_after(count, (k - 1) as nat);
        let (_, n, s) = answer_step(count, next, sent);
        (n, s)
    }
}

/// The answer to the token behind `k` others.
pub open spec fn answer_at(count: int, k: nat) -> Answer {
    let (next, sent) = answers_after(count, k);
    answer_step(count, next, sent).0
}

proof fn lemma_answers_after(count: int, k: nat)
    requires
        count > 0,
    ensures
        ({
            let r = k as int % (count + 1);
            answers_after(count, k) == if k == 0 {
                (0int, false)
            } else if r == 0 {
                (count, true)
            } else {
                (r, false)
            }
        }),
    decreases k,
{
    if k > 0 {
        lemma_answers_after(count, (k - 1) as nat);
        let m = count + 1;
        let before = (k - 1) as int % m;
        let after = k as int % m;
        assert(after == if before == m - 1 {
            0
        } else {
            before + 1
        }) by {
            vstd::arithmetic::div_mod::lemma_fundamental_div_mod(k as int - 1, m);
            let q = (k as int - 1) / m;
            if before == m - 1 {
                assert(k as int == (q + 1) * m) by (nonlinear_arith)
                    requires
                        k as int - 1 == m * q + before,
                        before == m - 1,
                ;
                vstd::arithmetic::div_mod::lemma_mod_multiples_basic(q + 1, m);
            } else {
                assert(k as int == q * m + (before + 1)) by (nonlinear_arith)
                    requires
                        k as int - 1 == m * q + before,
                ;
                vstd::arithmetic::div_mod::lemma_fundamental_div_mod_converse(
                    k as int,
                    m,
                    q,
                    before + 1,
                );
            }
        }
        vstd::arithmetic::div_mod::lemma_mod_bound(k as int - 1, m);
    }
}

/// The answers go round: a signature with each key in turn, then the public key of the first
/// key, and again from the start.
pub proof fn answers_go_round(count: int, k: nat)
    requires
        count > 0,
    ensures
        answer_at(count, k) == if k as int % (count + 1) < count {
            Answer::Signature(k as int % (count + 1))
        } else {
            Answer::PublicKey
        },
{
    lemma_answers_after(count, k);
    vstd::arithmetic::div_mod::lemma_mod_bound(k as int, count + 1);
    if k == 0 {
        vstd::arithmetic::div_mod::lemma_small_mod(0, (count + 1) as nat);
    }
}

/// The views of a list of keys.
pub open spec fn auth_models(v: Seq<AdbAuth>) -> Seq<AuthModel> {
    Seq::new(v.len(), |i: int| v[i]@)
}

/// Answers the tokens of a device: a signature with each key in turn, then the public key of
/// the first, and again from the start.
pub struct AuthResponder {
    keys: Vec<AdbAuth>,
    next_key: usize,
    pubkey_sent: bool,
}

impl AuthResponder {
    /// The keys.
    pub closed spec fn key_models(&self) -> Seq<AuthModel> {
        auth_models(self.keys@)
    }

    /// The key that is tried next.
    pub closed spec fn next(&self) -> int {
        self.next_key as int
    }

    /// The public key was sent since the keys were last gone through.
    pub closed spec fn sent(&self) -> bool {
        self.pubkey_sent
    }

    /// The next key is one of the keys, or the one behind the last.
    pub closed spec fn wf(&self) -> bool {
        self.next_key <= self.keys@.len()
    }

    /// A responder with a list of keys, the user's key first.
    pub fn from_key_list(keys: Vec<AdbAuth>) -> (r: AuthResponder)
        ensures
            r.wf(),
            r.key_models() == auth_models(keys@),
            r.next() == 0,
            !r.sent(),
    {
        AuthResponder { keys, next_key: 0, pubkey_sent: false }
    }

    /// A responder with one key.
    pub fn single(key: AdbAuth) -> (r: AuthResponder)
        ensures
            r.wf(),
            r.key_models() == seq![key@],
            r.next() == 0,
            !r.sent(),
    {
        let mut keys: Vec<AdbAuth> = Vec::new();
        keys.push(key);
        assert(auth_models(keys@) =~= seq![key@]);
        Self::from_key_list(keys)
    }

    /// The answer to a token. There is always one; a responder without keys has none to give
    /// and must not be asked.
    pub fn respond_to_token(&mut self, token: &[u8]) -> (r: Result<
        Option<(AdbMessageHeader, Vec<u8>)>,
        AuthError,
    >)
        requires
            old(self).wf(),
            old(self).key_models().len() > 0,
        ensures
            final(self).wf(),
            final(self).key_models() == old(self).key_models(),
            ({
                let (answer, next, sent) = answer_step(
                    old(self).key_models().len() as int,
                    old(self).next(),
                    old(self).sent(),
                );
                &&& final(self).next() == next
                &&& final(self).sent() == sent
                &&& answered(r) matches Some(m) && match answer {
                    Answer::Signature(i) => is_signature_message(
                        old(self).key_models()[i],
                        token@,
                        m,
                    ),
                    Answer::PublicKey => is_rsakey_message(old(self).key_models()[0], m),
                }
            }),
    {
        if self.next_key < self.keys.len() {
            let i: usize = self.next_key;
            self.next_key = self.next_key + 1;
            let m = self.keys[i].make_signature_message(token)?;
            return Ok(Some(m));
        }
        if !self.pubkey_sent {
            self.pubkey_sent = true;
            let m = self.keys[0].make_rsakey_message()?;
            return Ok(Some(m));
        }
        self.pubkey_sent = false;
        self.next_key = 1;
        let m = self.keys[0].make_signature_message(token)?;
        Ok(Some(m))
    }

    /// Number of private keys available for SIGNATURE responses.
    pub fn key_count(&self) -> (r: usize)
        ensures
            r == self.key_models().len(),
    {
        self.keys.len()
    }

    /// Whether the public key was sent since the keys were last gone through.
    pub fn pubkey_sent(&self) -> (r: bool)
        ensures
            r == self.sent(),
    {
        self.pubkey_sent
    }
}

/// The message of an answer, where there is one.
pub open spec fn answered(r: Result<Option<(AdbMessageHeader, Vec<u8>)>, AuthError>) -> Option<
    Result<Message, AuthErrorModel>,
> {
    match r {
        Ok(Some((h, p))) => Some(Ok((h, p@))),
        Ok(None) => None,
        Err(e) => Some(Err(e@)),
    }
}

proof fn lemma_nonempty_all(paths: Seq<Seq<char>>)
    requires
        forall|i: int| 0 <= i < paths.len() ==> (#[trigger] paths[i]).len() > 0,
    ensures
        nonempty(paths) == paths,
    decreases paths.len(),
{
    if paths.len() > 0 {
        let t = paths.drop_last();
        assert(paths[paths.len() - 1].len() > 0);
        assert forall|i: int| 0 <= i < t.len() implies (#[trigger] t[i]).len() > 0 by {
            assert(t[i] == paths[i]);
        }
        lemma_nonempty_all(t);
        assert(t.push(paths.last()) =~= paths);
    } else {
        assert(nonempty(paths) =~= paths);
    }
}

proof fn lemma_nonempty_concat(a: Seq<Seq<char>>, b: Seq<Seq<char>>)
    ensures
        nonempty(a + b) == nonempty(a) + nonempty(b),
    decreases b.len(),
{
    if b.len() == 0 {
        assert(a + b =~= a);
        assert(nonempty(a) + nonempty(b) =~= nonempty(a));
    } else {
        assert((a + b).drop_last() =~= a + b.drop_last());
        assert((a + b).last() == b.last());
        lemma_nonempty_concat(a, b.drop_last());
        assert(nonempty(a + b) =~= nonempty(a) + nonempty(b));
    }
}

/// Paths with colons between them are told one by one, in their order; between two colons with
/// nothing between them there is none.
pub proof fn key_paths_are_told(a: Seq<Seq<char>>, b: Seq<Seq<char>>)
    requires
        a.len() > 0,
        forall|i: int| 0 <= i < a.len() ==> (#[trigger] a[i]).len() > 0 && !a[i].contains(':'),
        forall|i: int| 0 <= i < b.len() ==> (#[trigger] b[i]).len() > 0 && !b[i].contains(':'),
    ensures
        nonempty(split(joined(a, ':'), ':')) == a,
        nonempty(split(joined(a + seq![Seq::empty()] + b, ':'), ':')) == a + b,
{
    let gap = seq![Seq::<char>::empty()];
    joining_is_undone_by_splitting(a, ':');
    lemma_nonempty_all(a);
    lemma_nonempty_all(b);
    let all = a + gap + b;
    assert forall|i: int| 0 <= i < all.len() implies !(#[trigger] all[i]).contains(':') by {
        if i < a.len() {
            assert(all[i] == a[i]);
        } else if i > a.len() {
            assert(all[i] == b[i - a.len() - 1]);
        }
    }
    joining_is_undone_by_splitting(all, ':');
    lemma_nonempty_concat(a + gap, b);
    lemma_nonempty_concat(a, gap);
    assert(gap.drop_last() =~= Seq::<Seq<char>>::empty());
    assert(nonempty(gap.drop_last()) =~= Seq::<Seq<char>>::empty());
    assert(nonempty(gap) =~= Seq::<Seq<char>>::empty());
    assert(a + Seq::<Seq<char>>::empty() + b =~= a + b);
}

proof fn lemma_fringe_before(a: Seq<char>, m: Seq<char>, f: Fringe)
    requires
        forall|i: int| 0 <= i < a.len() ==> f.has(#[trigger] a[i]),
        m.len() > 0 ==> !f.has(m[0]),
    ensures
        cut_start(a + m, f) == m,
    decreases a.len(),
{
    if a.len() == 0 {
        assert(a + m =~= m);
    } else {
        let rest = a.subrange(1, a.len() as int);
        assert(f.has(a[0]));
        assert((a + m).subrange(1, (a + m).len() as int) =~= rest + m);
        assert forall|i: int| 0 <= i < rest.len() implies f.has(#[trigger] rest[i]) by {
            assert(rest[i] == a[i + 1]);
        }
        lemma_fringe_before(rest, m, f);
    }
}

proof fn lemma_fringe_behind(m: Seq<char>, b: Seq<char>, f: Fringe)
    requires
        forall|i: int| 0 <= i < b.len() ==> f.has(#[trigger] b[i]),
        m.len() > 0 ==> !f.has(m.last()),
    ensures
        cut_end(m + b, f) == m,
    decreases b.len(),
{
    if b.len() == 0 {
        assert(m + b =~= m);
    } else {
        let rest = b.subrange(0, b.len() - 1);
        assert((m + b).subrange(0, (m + b).len() - 1) =~= m + rest);
        assert((m + b)[(m + b).len() - 1] == b[b.len() - 1]);
        lemma_fringe_behind(m, rest, f);
    }
}

/// A label is put into a key's line without the white space and NULs around it, behind one space
/// and before one NUL.
pub proof fn label_is_kept(b64: Seq<char>, a: Seq<char>, m: Seq<char>, b: Seq<char>)
    requires
        forall|i: int| 0 <= i < a.len() ==> is_white(#[trigger] a[i]) || a[i] == '\0',
        forall|i: int| 0 <= i < b.len() ==> is_white(#[trigger] b[i]) || b[i] == '\0',
        m.len() > 0,
        !is_white(m[0]) && m[0] != '\0',
        !is_white(m.last()) && m.last() != '\0',
    ensures
        key_line(b64, a + m + b) == b64 + seq![' '] + m + seq!['\0'],
{
    let f = Fringe::WhiteOrNul;
    assert(a + m + b =~= a + (m + b));
    lemma_fringe_before(a, m + b, f);
    lemma_fringe_behind(m, b, f);
}

} // verus!
