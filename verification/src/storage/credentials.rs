//! Credentials in the storage settings, which may change while a connection
//! is open.

use std::str::FromStr;
use object_store::aws::AmazonS3ConfigKey;
use object_store::azure::{AzureAccessKey, AzureConfigKey};
use vstd::prelude::*;
use vstd::string::StringExecFns;
use crate::storage::options::{
    keys_differ, merged, OptionPairs, StorageOptions,
};
use crate::storage::{StorageError, StorageFault};

verus! {

// ---- Keys -------------------------------------------------------------------

/// What a setting means to the S3 backend.
#[derive(Debug, Clone, Copy, PartialEq, Eq, Structural)]
pub enum S3Key {
    AccessKeyId,
    SecretAccessKey,
    Token,
    /// Another setting, or none of this backend.
    Other,
}

/// The credential that a key names for S3, with its aliases.
pub open spec fn s3_key_of(key: Seq<char>) -> S3Key {
    if key == "aws_access_key_id"@ || key == "access_key_id"@ {
        S3Key::AccessKeyId
    } else if key == "aws_secret_access_key"@ || key == "secret_access_key"@ {
        S3Key::SecretAccessKey
    } else if key == "aws_session_token"@ || key == "aws_token"@ || key == "session_token"@ || key
        == "token"@ {
        S3Key::Token
    } else {
        S3Key::Other
    }
}

/// Is `key` the account key of Azure, under one of its names?
pub open spec fn is_azure_account_key(key: Seq<char>) -> bool {
    ||| key == "azure_storage_account_key"@
    ||| key == "azure_storage_access_key"@
    ||| key == "azure_storage_master_key"@
    ||| key == "master_key"@
    ||| key == "account_key"@
    ||| key == "access_key"@
}

/// What `key` means to the S3 backend. Calls `AmazonS3ConfigKey::from_str`,
/// which takes the names in [`s3_key_of`] for these three settings.
#[verifier::external_body]
fn s3_key(key: &str) -> (res: S3Key)
    ensures
        res == s3_key_of(key@),
{
    match AmazonS3ConfigKey::from_str(key) {
        Ok(AmazonS3ConfigKey::AccessKeyId) => S3Key::AccessKeyId,
        Ok(AmazonS3ConfigKey::SecretAccessKey) => S3Key::SecretAccessKey,
        Ok(AmazonS3ConfigKey::Token) => S3Key::Token,
        _ => S3Key::Other,
    }
}

/// Is `key` the account key of Azure? Calls `AzureConfigKey::from_str`, which
/// takes the names in [`is_azure_account_key`] for it.
#[verifier::external_body]
fn azure_key(key: &str) -> (res: bool)
    ensures
        res == is_azure_account_key(key@),
{
    matches!(AzureConfigKey::from_str(key), Ok(AzureConfigKey::AccessKey))
}

/// The message of the error that `AzureAccessKey::try_new` has for a text that
/// is no account key; `None` for an account key.
pub uninterp spec fn azure_key_fault(value: Seq<char>) -> Option<Seq<char>>;

/// An optional text over sequences.
pub open spec fn optional_text(text: Option<String>) -> Option<Seq<char>> {
    match text {
        Some(text) => Some(text@),
        None => None,
    }
}

/// Why `value` is no account key, if it is none. Calls
/// `AzureAccessKey::try_new`, which decodes base 64; [`azure_key_fault`] names
/// the message of its error.
#[verifier::external_body]
fn check_azure_key(value: &str) -> (fault: Option<String>)
    ensures
        optional_text(fault) == azure_key_fault(value@),
{
    AzureAccessKey::try_new(value).err().map(|e| e.to_string())
}

/// Is `key` a credential of S3, which is served anew for each request and
/// must not be fixed in a client?
pub fn is_s3_credential_key(key: &str) -> (res: bool)
    ensures
        res == !(s3_key_of(key@) is Other),
{
    match s3_key(key) {
        S3Key::Other => false,
        _ => true,
    }
}

/// Is `key` a credential of Azure?
pub fn is_azure_credential_key(key: &str) -> (res: bool)
    ensures
        res == is_azure_account_key(key@),
{
    azure_key(key)
}

// ---- Credentials ------------------------------------------------------------

/// The error for settings that hold no usable credential.
pub fn invalid(message: &str) -> (error: StorageError)
    ensures
        error@ == (StorageFault::Permanent { uri: "credentials"@, source: message@ }),
{
    StorageError::Permanent { uri: "credentials".to_owned(), source: message.to_owned() }
}

/// A static credential of S3.
#[derive(Debug, Clone, PartialEq, Eq)]
pub struct AwsCredential {
    pub key_id: String,
    pub secret_key: String,
    pub token: Option<String>,
}

/// [`AwsCredential`] over sequences.
#[verifier::ext_equal]
pub struct AwsView {
    pub key_id: Seq<char>,
    pub secret_key: Seq<char>,
    pub token: Option<Seq<char>>,
}

impl View for AwsCredential {
    type V = AwsView;

    open spec fn view(&self) -> AwsView {
        AwsView {
            key_id: self.key_id@,
            secret_key: self.secret_key@,
            token: optional_text(self.token),
        }
    }
}

/// A static credential of Azure: an account key.
#[derive(Debug, Clone, PartialEq, Eq)]
pub struct AzureCredential {
    pub account_key: String,
}

/// The value of the last setting that means `kind`.
pub open spec fn last_of_kind(pairs: OptionPairs, kind: S3Key) -> Option<Seq<char>>
    decreases pairs.len(),
{
    if pairs.len() == 0 {
        None
    } else if s3_key_of(pairs.last().0) == kind {
        Some(pairs.last().1)
    } else {
        last_of_kind(pairs.drop_last(), kind)
    }
}

/// The S3 credential in settings: both keys, or neither.
pub open spec fn aws_of(pairs: OptionPairs) -> Result<Option<AwsView>, StorageFault> {
    match (
        last_of_kind(pairs, S3Key::AccessKeyId),
        last_of_kind(pairs, S3Key::SecretAccessKey),
    ) {
        (Some(key_id), Some(secret_key)) => Ok(
            Some(AwsView { key_id, secret_key, token: last_of_kind(pairs, S3Key::Token) }),
        ),
        (None, None) => Ok(None),
        _ => Err(
            StorageFault::Permanent {
                uri: "credentials"@,
                source: "s3 needs both aws_access_key_id and aws_secret_access_key"@,
            },
        ),
    }
}

/// The value of the first account key in settings.
pub open spec fn first_account_key(pairs: OptionPairs) -> Option<Seq<char>>
    decreases pairs.len(),
{
    if pairs.len() == 0 {
        None
    } else if is_azure_account_key(pairs[0].0) {
        Some(pairs[0].1)
    } else {
        first_account_key(pairs.subrange(1, pairs.len() as int))
    }
}

/// The Azure credential in settings: the account key, if it is one.
pub open spec fn azure_of(pairs: OptionPairs) -> Result<Option<Seq<char>>, StorageFault> {
    match first_account_key(pairs) {
        None => Ok(None),
        Some(value) => match azure_key_fault(value) {
            None => Ok(Some(value)),
            Some(fault) => Err(
                StorageFault::Permanent {
                    uri: "credentials"@,
                    source: "invalid azure_storage_account_key: "@ + fault,
                },
            ),
        },
    }
}

/// The S3 credential in `opts`. One key without the other is an error.
pub fn aws_credential(opts: &StorageOptions) -> (res: Result<Option<AwsCredential>, StorageError>)
    ensures
        match aws_of(opts@) {
            Ok(Some(view)) => res matches Ok(Some(credential)) && credential@ == view,
            Ok(None) => res == Ok::<Option<AwsCredential>, StorageError>(None),
            Err(fault) => res matches Err(e) && e@ == fault,
        },
{
    let mut key_id: Option<String> = None;
    let mut secret_key: Option<String> = None;
    let mut token: Option<String> = None;
    let mut i: usize = 0;
    while i < opts.len()
        invariant
            i <= opts@.len(),
            optional_text(key_id) == last_of_kind(opts@.take(i as int), S3Key::AccessKeyId),
            optional_text(secret_key) == last_of_kind(
                opts@.take(i as int),
                S3Key::SecretAccessKey,
            ),
            optional_text(token) == last_of_kind(opts@.take(i as int), S3Key::Token),
        decreases opts@.len() - i,
    {
        let (key, value) = opts.entry(i);
        assert(opts@.take(i + 1).drop_last() =~= opts@.take(i as int));
        match s3_key(key) {
            S3Key::AccessKeyId => {
                key_id = Some(value.to_owned());
            },
            S3Key::SecretAccessKey => {
                secret_key = Some(value.to_owned());
            },
            S3Key::Token => {
                token = Some(value.to_owned());
            },
            S3Key::Other => {},
        }
        i = i + 1;
    }
    assert(opts@.take(opts@.len() as int) =~= opts@);
    match (key_id, secret_key) {
        (Some(key_id), Some(secret_key)) => Ok(Some(AwsCredential { key_id, secret_key, token })),
        (None, None) => Ok(None),
        _ => Err(invalid("s3 needs both aws_access_key_id and aws_secret_access_key")),
    }
}

/// The Azure credential in `opts`. An account key that is no base 64 is an
/// error.
pub fn azure_credential(opts: &StorageOptions) -> (res: Result<
    Option<AzureCredential>,
    StorageError,
>)
    ensures
        match azure_of(opts@) {
            Ok(Some(value)) => res matches Ok(Some(credential)) && credential.account_key@
                == value,
            Ok(None) => res == Ok::<Option<AzureCredential>, StorageError>(None),
            Err(fault) => res matches Err(e) && e@ == fault,
        },
{
    let mut i: usize = 0;
    assert(opts@.skip(0) =~= opts@);
    while i < opts.len()
        invariant
            i <= opts@.len(),
            first_account_key(opts@) == first_account_key(opts@.skip(i as int)),
        decreases opts@.len() - i,
    {
        let (key, value) = opts.entry(i);
        let ghost rest = opts@.skip(i as int);
        assert(rest[0] == opts@[i as int]);
        assert(rest.subrange(1, rest.len() as int) =~= opts@.skip(i + 1));
        if azure_key(key) {
            return match check_azure_key(value) {
                None => Ok(Some(AzureCredential { account_key: value.to_owned() })),
                Some(fault) => {
                    let mut message = "invalid azure_storage_account_key: ".to_owned();
                    message.append(&fault);
                    Err(invalid(&message))
                },
            };
        }
        i = i + 1;
    }
    Ok(None)
}

/// What a request for a credential gets of the current settings: the
/// credential, or the message why there is none.
pub fn current_credential<T>(found: Result<Option<T>, StorageError>) -> (res: Result<T, String>)
    ensures
        match found {
            Ok(Some(credential)) => res == Ok::<T, String>(credential),
            Ok(None) => res matches Err(message) && message@
                == "storage options no longer carry a credential"@,
            Err(e) => res matches Err(message) && message@ == e@.message(),
        },
{
    match found {
        Ok(Some(credential)) => Ok(credential),
        Ok(None) => Err("storage options no longer carry a credential".to_owned()),
        Err(e) => Err(e.message()),
    }
}

// ---- Shared settings --------------------------------------------------------

/// The settings of connections, each in a cell of its own, in which they can
/// change while clients of the connection are at work.
#[derive(Debug)]
pub struct OptionCells {
    cells: Vec<StorageOptions>,
}

/// The settings in a list of cells.
pub open spec fn cells_view(cells: Seq<StorageOptions>) -> Seq<OptionPairs> {
    cells.map_values(|options: StorageOptions| options@)
}

impl View for OptionCells {
    type V = Seq<OptionPairs>;

    closed spec fn view(&self) -> Seq<OptionPairs> {
        cells_view(self.cells@)
    }
}

impl OptionCells {
    /// No cells.
    pub fn new() -> (cells: Self)
        ensures
            cells@ == Seq::<OptionPairs>::empty(),
    {
        let cells = OptionCells { cells: Vec::new() };
        assert(cells@ =~= Seq::<OptionPairs>::empty());
        cells
    }
}

/// The settings of a connection. A clone stands for the same cell, so an
/// update through one of them is seen through all, and by every provider that
/// was made of one.
#[derive(Debug, Clone, Copy, PartialEq, Eq, Structural)]
pub struct SharedStorageOptions {
    cell: usize,
}

/// Why the credentials in settings are not usable, if they are not.
pub open spec fn credential_fault(pairs: OptionPairs) -> Option<StorageFault> {
    match (aws_of(pairs), azure_of(pairs)) {
        (Err(fault), _) => Some(fault),
        (Ok(_), Err(fault)) => Some(fault),
        (Ok(_), Ok(_)) => None,
    }
}

/// The cells after `patch` is set in one of them. If the credentials in the
/// result are not usable, nothing changes.
pub open spec fn updated(cells: Seq<OptionPairs>, cell: int, patch: OptionPairs) -> Seq<
    OptionPairs,
> {
    if credential_fault(merged(cells[cell], patch)) is Some {
        cells
    } else {
        cells.update(cell, merged(cells[cell], patch))
    }
}

/// The S3 credential that settings serve, or the message why there is none.
pub open spec fn served_aws(pairs: OptionPairs) -> Result<AwsView, Seq<char>> {
    match aws_of(pairs) {
        Ok(Some(credential)) => Ok(credential),
        Ok(None) => Err("storage options no longer carry a credential"@),
        Err(fault) => Err(fault.message()),
    }
}

/// The Azure account key that settings serve, or the message why there is
/// none.
pub open spec fn served_azure(pairs: OptionPairs) -> Result<Seq<char>, Seq<char>> {
    match azure_of(pairs) {
        Ok(Some(account_key)) => Ok(account_key),
        Ok(None) => Err("storage options no longer carry a credential"@),
        Err(fault) => Err(fault.message()),
    }
}

impl SharedStorageOptions {
    /// The cell of the settings.
    pub closed spec fn cell(self) -> int {
        self.cell as int
    }

    /// Do the settings have a cell among `cells`?
    pub open spec fn is_among(self, cells: Seq<OptionPairs>) -> bool {
        0 <= self.cell() < cells.len()
    }

    /// A connection with these settings, in a new cell.
    pub fn new(cells: &mut OptionCells, options: StorageOptions) -> (shared: Self)
        ensures
            final(cells)@ == old(cells)@.push(options@),
            shared.cell() == old(cells)@.len(),
            shared.is_among(final(cells)@),
    {
        let shared = SharedStorageOptions { cell: cells.cells.len() };
        cells.cells.push(options);
        assert(cells@ =~= old(cells)@.push(options@));
        shared
    }

    /// Do the settings have a cell among `cells`?
    pub fn is_in(&self, cells: &OptionCells) -> (res: bool)
        ensures
            res == self.is_among(cells@),
    {
        self.cell < cells.cells.len()
    }

    /// The current settings.
    pub fn snapshot<'a>(&self, cells: &'a OptionCells) -> (options: &'a StorageOptions)
        requires
            self.is_among(cells@),
        ensures
            options@ == cells@[self.cell()],
    {
        &cells.cells[self.cell]
    }

    /// Sets everything in `patch`. If the credentials in the result are not
    /// usable, nothing changes.
    pub fn update(&self, cells: &mut OptionCells, patch: &StorageOptions) -> (res: Result<
        (),
        StorageError,
    >)
        requires
            self.is_among(old(cells)@),
            keys_differ(old(cells)@[self.cell()]),
        ensures
            final(cells)@ == updated(old(cells)@, self.cell(), patch@),
            keys_differ(final(cells)@[self.cell()]),
            match credential_fault(merged(old(cells)@[self.cell()], patch@)) {
                Some(fault) => res matches Err(e) && e@ == fault,
                None => res is Ok,
            },
    {
        let mut options = self.snapshot(cells).copy();
        options.extend(patch);
        if let Err(e) = aws_credential(&options) {
            return Err(e);
        }
        if let Err(e) = azure_credential(&options) {
            return Err(e);
        }
        cells.cells[self.cell] = options;
        assert(cells@ =~= old(cells)@.update(self.cell(), options@));
        Ok(())
    }

    /// What serves the S3 credential of these settings; `None` means that
    /// they have none and the backend finds its own identity.
    pub fn aws_provider(&self, cells: &OptionCells) -> (res: Result<
        Option<AwsProvider>,
        StorageError,
    >)
        requires
            self.is_among(cells@),
        ensures
            match aws_of(cells@[self.cell()]) {
                Ok(Some(_)) => res == Ok::<Option<AwsProvider>, StorageError>(
                    Some(AwsProvider { options: *self }),
                ),
                Ok(None) => res == Ok::<Option<AwsProvider>, StorageError>(None),
                Err(fault) => res matches Err(e) && e@ == fault,
            },
    {
        match aws_credential(self.snapshot(cells)) {
            Ok(Some(_)) => Ok(Some(AwsProvider { options: *self })),
            Ok(None) => Ok(None),
            Err(e) => Err(e),
        }
    }

    /// What serves the Azure credential of these settings, if they have one.
    pub fn azure_provider(&self, cells: &OptionCells) -> (res: Result<
        Option<AzureProvider>,
        StorageError,
    >)
        requires
            self.is_among(cells@),
        ensures
            match azure_of(cells@[self.cell()]) {
                Ok(Some(_)) => res == Ok::<Option<AzureProvider>, StorageError>(
                    Some(AzureProvider { options: *self }),
                ),
                Ok(None) => res == Ok::<Option<AzureProvider>, StorageError>(None),
                Err(fault) => res matches Err(e) && e@ == fault,
            },
    {
        match azure_credential(self.snapshot(cells)) {
            Ok(Some(_)) => Ok(Some(AzureProvider { options: *self })),
            Ok(None) => Ok(None),
            Err(e) => Err(e),
        }
    }
}

/// Serves the S3 credential that shared settings hold when it is asked.
#[derive(Debug, Clone, Copy, PartialEq, Eq, Structural)]
pub struct AwsProvider {
    pub options: SharedStorageOptions,
}

impl AwsProvider {
    /// The current credential, or the message why there is none.
    pub fn get_credential(&self, cells: &OptionCells) -> (res: Result<AwsCredential, String>)
        requires
            self.options.is_among(cells@),
        ensures
            match served_aws(cells@[self.options.cell()]) {
                Ok(view) => res matches Ok(credential) && credential@ == view,
                Err(message) => res matches Err(e) && e@ == message,
            },
    {
        current_credential(aws_credential(self.options.snapshot(cells)))
    }
}

/// Serves the Azure credential that shared settings hold when it is asked.
#[derive(Debug, Clone, Copy, PartialEq, Eq, Structural)]
pub struct AzureProvider {
    pub options: SharedStorageOptions,
}

impl AzureProvider {
    /// The current credential, or the message why there is none.
    pub fn get_credential(&self, cells: &OptionCells) -> (res: Result<AzureCredential, String>)
        requires
            self.options.is_among(cells@),
        ensures
            match served_azure(cells@[self.options.cell()]) {
                Ok(account_key) => res matches Ok(credential) && credential.account_key@
                    == account_key,
                Err(message) => res matches Err(e) && e@ == message,
            },
    {
        current_credential(azure_credential(self.options.snapshot(cells)))
    }
}

/// An update through one clone of a connection's settings is seen through
/// every clone, and every provider made of one serves the new credential; an
/// update that leaves no usable credential is seen by none. The settings of
/// other connections stay as they are.
pub proof fn lemma_update_reaches_every_clone(
    cells: Seq<OptionPairs>,
    updating: SharedStorageOptions,
    reading: SharedStorageOptions,
    patch: OptionPairs,
)
    requires
        updating.is_among(cells),
        reading.is_among(cells),
    ensures
        ({
            let before = cells[updating.cell()];
            let after = updated(cells, updating.cell(), patch);
            let seen = after[reading.cell()];
            &&& reading.is_among(after)
            &&& reading == updating && credential_fault(merged(before, patch)) is None ==> seen
                == merged(before, patch) && served_aws(seen) == served_aws(merged(before, patch))
                && served_azure(seen) == served_azure(merged(before, patch))
            &&& reading == updating && credential_fault(merged(before, patch)) is Some ==> seen
                == before
            &&& reading != updating ==> seen == cells[reading.cell()]
        }),
{
}

/// After an update that a connection accepts, its providers never fail with
/// a malformed credential.
pub proof fn lemma_accepted_credentials_are_served(
    cells: Seq<OptionPairs>,
    shared: SharedStorageOptions,
    patch: OptionPairs,
)
    requires
        shared.is_among(cells),
        credential_fault(merged(cells[shared.cell()], patch)) is None,
    ensures
        aws_of(updated(cells, shared.cell(), patch)[shared.cell()]) is Ok,
        azure_of(updated(cells, shared.cell(), patch)[shared.cell()]) is Ok,
{
}

// ---- What a credential is made of -------------------------------------------

/// The value of a kind of setting is that of the last setting of the kind.
pub proof fn lemma_last_of_kind(pairs: OptionPairs, kind: S3Key, i: int)
    requires
        -1 <= i < pairs.len(),
        i >= 0 ==> s3_key_of(pairs[i].0) == kind,
        forall|k: int| i < k < pairs.len() ==> s3_key_of((#[trigger] pairs[k]).0) != kind,
    ensures
        last_of_kind(pairs, kind) == if i >= 0 {
            Some(pairs[i].1)
        } else {
            None
        },
    decreases pairs.len(),
{
    let last = pairs.len() - 1;
    if i < last {
        let rest = pairs.drop_last();
        assert(s3_key_of(pairs[last].0) != kind);
        assert forall|k: int| i < k < rest.len() implies s3_key_of((#[trigger] rest[k]).0)
            != kind by {
            assert(rest[k] == pairs[k]);
        }
        if i >= 0 {
            assert(rest[i] == pairs[i]);
        }
        lemma_last_of_kind(rest, kind, i);
    }
}

/// The account key is that of the first setting that is one.
pub proof fn lemma_first_account_key(pairs: OptionPairs, i: int)
    requires
        0 <= i <= pairs.len(),
        i < pairs.len() ==> is_azure_account_key(pairs[i].0),
        forall|k: int| 0 <= k < i ==> !is_azure_account_key((#[trigger] pairs[k]).0),
    ensures
        first_account_key(pairs) == if i < pairs.len() {
            Some(pairs[i].1)
        } else {
            None
        },
    decreases pairs.len(),
{
    if i > 0 {
        let rest = pairs.subrange(1, pairs.len() as int);
        assert(!is_azure_account_key(pairs[0].0));
        assert forall|k: int| 0 <= k < i - 1 implies !is_azure_account_key(
            (#[trigger] rest[k]).0,
        ) by {
            assert(rest[k] == pairs[k + 1]);
        }
        lemma_first_account_key(rest, i - 1);
    }
}

/// Settings hold an S3 credential exactly if they have both keys: it is made of
/// them, and of the token if there is one. With one key alone they are
/// malformed, and with neither they hold none, whatever token there is.
pub proof fn lemma_s3_needs_both_keys(
    opts: StorageOptions,
    res: Result<Option<AwsCredential>, StorageError>,
)
    requires
        call_ensures(aws_credential, (&opts,), res),
    ensures
        ({
            let key = last_of_kind(opts@, S3Key::AccessKeyId);
            let secret = last_of_kind(opts@, S3Key::SecretAccessKey);
            let token = last_of_kind(opts@, S3Key::Token);
            &&& res is Err <==> key is Some != secret is Some
            &&& res is Err ==> res->Err_0 is Permanent
            &&& (res is Ok && res->Ok_0 is Some) <==> key is Some && secret is Some
            &&& res is Ok && res->Ok_0 is Some ==> res->Ok_0->0.key_id@ == key->0
                && res->Ok_0->0.secret_key@ == secret->0 && (res->Ok_0->0.token is Some
                <==> token is Some) && (token is Some ==> res->Ok_0->0.token->0@ == token->0)
        }),
{
}

/// Settings hold an Azure credential exactly if they have an account key that
/// is one; another value is malformed.
pub proof fn lemma_azure_needs_a_valid_key(
    opts: StorageOptions,
    res: Result<Option<AzureCredential>, StorageError>,
)
    requires
        call_ensures(azure_credential, (&opts,), res),
    ensures
        ({
            let key = first_account_key(opts@);
            &&& res is Err <==> key is Some && azure_key_fault(key->0) is Some
            &&& res is Err ==> res->Err_0 is Permanent
            &&& (res is Ok && res->Ok_0 is None) <==> key is None
            &&& res is Ok && res->Ok_0 is Some ==> res->Ok_0->0.account_key@ == key->0
        }),
{
}

/// An update publishes the merged settings exactly if the credentials in them
/// are well formed for both backends; otherwise it fails and nothing changes.
pub proof fn lemma_update_is_checked(
    shared: SharedStorageOptions,
    cells: &mut OptionCells,
    patch: StorageOptions,
    res: Result<(), StorageError>,
)
    requires
        call_ensures(SharedStorageOptions::update, (&shared, cells, &patch), res),
        shared.is_among(old(cells)@),
        keys_differ(old(cells)@[shared.cell()]),
    ensures
        ({
            let now = merged(old(cells)@[shared.cell()], patch@);
            let key = last_of_kind(now, S3Key::AccessKeyId);
            let secret = last_of_kind(now, S3Key::SecretAccessKey);
            let account = first_account_key(now);
            &&& res is Ok <==> (key is Some == secret is Some) && (account is Some
                ==> azure_key_fault(account->0) is None)
            &&& res is Ok ==> final(cells)@[shared.cell()] == now
            &&& res is Err ==> final(cells)@ == old(cells)@
            &&& final(cells)@.len() == old(cells)@.len()
            &&& forall|other: int|
                0 <= other < old(cells)@.len() && other != shared.cell()
                    ==> #[trigger] final(cells)@[other] == old(cells)@[other]
        }),
{
}

/// After an update through one handle, every provider of the same settings
/// serves the keys of the merged settings.
pub proof fn lemma_providers_serve_the_update(
    shared: SharedStorageOptions,
    cells: &mut OptionCells,
    patch: StorageOptions,
    res: Result<(), StorageError>,
    after: OptionCells,
    clone: SharedStorageOptions,
    aws: Result<AwsCredential, String>,
    azure: Result<AzureCredential, String>,
)
    requires
        shared.is_among(old(cells)@),
        keys_differ(old(cells)@[shared.cell()]),
        call_ensures(SharedStorageOptions::update, (&shared, cells, &patch), res),
        res is Ok,
        after == *final(cells),
        clone == shared,
        call_ensures(AwsProvider::get_credential, (&AwsProvider { options: clone }, &after), aws),
        call_ensures(
            AzureProvider::get_credential,
            (&AzureProvider { options: clone }, &after),
            azure,
        ),
    ensures
        ({
            let now = merged(old(cells)@[shared.cell()], patch@);
            let key = last_of_kind(now, S3Key::AccessKeyId);
            let secret = last_of_kind(now, S3Key::SecretAccessKey);
            let account = first_account_key(now);
            &&& aws is Ok <==> key is Some
            &&& aws matches Ok(credential) ==> credential.key_id@ == key->0
                && credential.secret_key@ == secret->0
            &&& azure is Ok <==> account is Some
            &&& azure matches Ok(credential) ==> credential.account_key@ == account->0
        }),
{
}

} // verus!
