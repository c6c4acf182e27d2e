//! The S3 backend: where objects lie, what a failed request means, and how a
//! range is read in spite of short and failed responses.

use std::sync::Arc;
use object_store::aws::{AmazonS3, AmazonS3Builder, S3ConditionalPut};
use vstd::arithmetic::power::{lemma_pow0, lemma_pow1, lemma_pow_adds, lemma_pow_positive, pow};
use vstd::prelude::*;
use vstd::string::StringExecFns;
use crate::storage::{StorageError, StorageFault};
use crate::text::{decimal, from_chars, push_decimal, text_result, to_chars};

verus! {

// ---- Prefixes and keys ------------------------------------------------------

/// `s` without the slashes at its start.
pub open spec fn without_leading_slashes(s: Seq<char>) -> Seq<char>
    decreases s.len(),
{
    if s.len() > 0 && s[0] == '/' {
        without_leading_slashes(s.subrange(1, s.len() as int))
    } else {
        s
    }
}

/// `s` without the slashes at its end.
pub open spec fn without_trailing_slashes(s: Seq<char>) -> Seq<char>
    decreases s.len(),
{
    if s.len() > 0 && s.last() == '/' {
        without_trailing_slashes(s.drop_last())
    } else {
        s
    }
}

/// `s` without the slashes at both ends.
pub open spec fn trimmed(s: Seq<char>) -> Seq<char> {
    without_trailing_slashes(without_leading_slashes(s))
}

/// The key of an object under a prefix.
pub open spec fn key_of(prefix: Seq<char>, uri: Seq<char>) -> Seq<char> {
    if prefix.len() == 0 {
        without_leading_slashes(uri)
    } else {
        prefix + "/"@ + without_leading_slashes(uri)
    }
}

/// The URI of the object with a key under a prefix.
pub open spec fn uri_of_key(prefix: Seq<char>, key: Seq<char>) -> Option<Seq<char>> {
    let start = prefix + "/"@;
    if prefix.len() == 0 {
        Some(key)
    } else if start.is_prefix_of(key) {
        Some(key.skip(start.len() as int))
    } else {
        None
    }
}

/// The URI of an object reads back from its key, without the slashes at its
/// start.
pub proof fn lemma_key_reads_back(prefix: Seq<char>, uri: Seq<char>)
    ensures
        uri_of_key(prefix, key_of(prefix, uri)) == Some(without_leading_slashes(uri)),
{
    let start = prefix + "/"@;
    if prefix.len() > 0 {
        let key = key_of(prefix, uri);
        assert(start.is_prefix_of(key));
        assert(key.skip(start.len() as int) =~= without_leading_slashes(uri));
    }
}

/// Where the first character that is no slash stands.
fn skip_slashes(chars: &[char]) -> (start: usize)
    ensures
        start <= chars@.len(),
        without_leading_slashes(chars@) == chars@.skip(start as int),
{
    let mut start: usize = 0;
    assert(chars@.skip(0) =~= chars@);
    while start < chars.len() && chars[start] == '/'
        invariant
            start <= chars@.len(),
            without_leading_slashes(chars@) == without_leading_slashes(chars@.skip(start as int)),
        decreases chars.len() - start,
    {
        let ghost rest = chars@.skip(start as int);
        assert(rest.subrange(1, rest.len() as int) =~= chars@.skip(start + 1));
        start = start + 1;
    }
    start
}

/// A table prefix without slashes at its ends.
pub fn normalize_prefix(prefix: &str) -> (res: String)
    ensures
        res@ == trimmed(prefix@),
{
    let chars = to_chars(prefix);
    let start = skip_slashes(&chars);
    let mut end: usize = chars.len();
    assert(chars@.subrange(start as int, end as int) =~= chars@.skip(start as int));
    while end > start && chars[end - 1] == '/'
        invariant
            start <= end <= chars@.len(),
            chars@ == prefix@,
            trimmed(prefix@) == without_trailing_slashes(
                chars@.subrange(start as int, end as int),
            ),
        decreases end,
    {
        assert(chars@.subrange(start as int, end as int).drop_last() =~= chars@.subrange(
            start as int,
            end - 1,
        ));
        end = end - 1;
    }
    from_chars(&chars, start, end)
}

/// A normalized prefix stays as it is.
pub proof fn lemma_normalize_idempotent(s: Seq<char>)
    ensures
        trimmed(trimmed(s)) == trimmed(s),
{
    let t = without_leading_slashes(s);
    lemma_leading_done(s);
    lemma_trailing_done(t);
    let u = without_trailing_slashes(t);
    if u.len() > 0 {
        assert(u[0] == t[0]);
    }
}

proof fn lemma_leading_done(s: Seq<char>)
    ensures
        without_leading_slashes(s).len() > 0 ==> without_leading_slashes(s)[0] != '/',
    decreases s.len(),
{
    if s.len() > 0 && s[0] == '/' {
        lemma_leading_done(s.subrange(1, s.len() as int));
    }
}

proof fn lemma_trailing_done(s: Seq<char>)
    ensures
        without_trailing_slashes(s).len() > 0 ==> without_trailing_slashes(s).last() != '/',
        without_trailing_slashes(s).is_prefix_of(s),
    decreases s.len(),
{
    if s.len() > 0 && s.last() == '/' {
        lemma_trailing_done(s.drop_last());
    }
}

/// What `object_store::path::Path::parse` makes of a key: the path's text, or
/// the text of its error.
pub uninterp spec fn parsed_path(key: Seq<char>) -> Result<Seq<char>, Seq<char>>;

/// A key without one slash at its start and one at its end.
pub open spec fn stripped(key: Seq<char>) -> Seq<char> {
    let rest = if key.len() > 0 && key[0] == '/' {
        key.subrange(1, key.len() as int)
    } else {
        key
    };
    if rest.len() > 0 && rest.last() == '/' {
        rest.drop_last()
    } else {
        rest
    }
}

/// The object path of a key. Calls `object_store::path::Path::parse`, which
/// refuses keys with an empty or illegal segment; [`parsed_path`] names what
/// it returns. A path that it accepts is the key without one slash at either
/// end.
#[verifier::external_body]
fn object_path(key: &str) -> (res: Result<String, String>)
    ensures
        text_result(res) == parsed_path(key@),
        res matches Ok(path) ==> path@ == stripped(key@),
{
    let path = object_store::path::Path::parse(key).map_err(|e| e.to_string())?;
    Ok(path.to_string())
}

// ---- The provider -----------------------------------------------------------

/// `object_store::aws::AmazonS3`, carried as it is.
#[verifier::external_type_specification]
#[verifier::external_body]
pub struct ExAmazonS3(AmazonS3);

/// How a client makes sure that a write replaces the version it should.
#[derive(Debug, Clone, Copy, PartialEq, Eq, Structural)]
pub enum ConditionalPut {
    /// By the tag of the version.
    ETagMatch,
    /// Not at all.
    Disabled,
}

/// What a client holds: the URL that the paths of its bucket follow, and the
/// settings of its requests.
#[verifier::ext_equal]
pub struct EndpointSettings {
    pub bucket_endpoint: Seq<char>,
    pub bucket: Seq<char>,
    pub access_key: Seq<char>,
    pub secret_key: Seq<char>,
    pub region: Seq<char>,
    pub allow_http: bool,
    pub conditional_put: ConditionalPut,
}

/// The settings that an `object_store::aws::AmazonS3` holds.
pub uninterp spec fn client_settings(store: AmazonS3) -> EndpointSettings;

/// The URL that the paths of a bucket follow: with virtual hosting the
/// endpoint, which names the bucket already; with path-style requests the
/// endpoint without slashes at its end, and the bucket.
pub open spec fn bucket_url(
    endpoint: Seq<char>,
    bucket: Seq<char>,
    virtual_hosted: bool,
) -> Seq<char> {
    if virtual_hosted {
        endpoint
    } else {
        without_trailing_slashes(endpoint) + "/"@ + bucket
    }
}

/// A client for a bucket behind a custom endpoint. Calls the builder of
/// `object_store::aws`; a client that it builds holds the URL of the bucket,
/// the credential, the region and the switches that it was given. When the
/// build succeeds is not stated: it sets up the machine's HTTP and TLS stack.
#[verifier::external_body]
fn client_for_endpoint(
    endpoint: &str,
    bucket: &str,
    access_key: &str,
    secret_key: &str,
    region: &str,
    allow_http: bool,
    virtual_hosted: bool,
    conditional_put: ConditionalPut,
) -> (res: Result<AmazonS3, String>)
    ensures
        res matches Ok(store) ==> client_settings(store) == (EndpointSettings {
            bucket_endpoint: bucket_url(endpoint@, bucket@, virtual_hosted),
            bucket: bucket@,
            access_key: access_key@,
            secret_key: secret_key@,
            region: region@,
            allow_http,
            conditional_put,
        }),
{
    let condition = match conditional_put {
        ConditionalPut::ETagMatch => S3ConditionalPut::ETagMatch,
        ConditionalPut::Disabled => S3ConditionalPut::Disabled,
    };
    let builder = AmazonS3Builder::new().with_endpoint(endpoint).with_bucket_name(bucket);
    builder
        .with_access_key_id(access_key)
        .with_secret_access_key(secret_key)
        .with_region(region)
        .with_allow_http(allow_http)
        .with_virtual_hosted_style_request(virtual_hosted)
        .with_conditional_put(condition)
        .build()
        .map_err(|e| e.to_string())
}

/// The settings of a client for a custom endpoint: path-style requests, which
/// need no name of the bucket's own; plain HTTP, which local endpoints speak;
/// and writes on condition of a tag.
pub open spec fn endpoint_settings(
    endpoint: Seq<char>,
    bucket: Seq<char>,
    access_key: Seq<char>,
    secret_key: Seq<char>,
    region: Seq<char>,
) -> EndpointSettings {
    EndpointSettings {
        bucket_endpoint: without_trailing_slashes(endpoint) + "/"@ + bucket,
        bucket,
        access_key,
        secret_key,
        region,
        allow_http: true,
        conditional_put: ConditionalPut::ETagMatch,
    }
}

/// An S3 bucket, and the prefix inside it that objects lie under.
#[derive(Debug)]
pub struct S3StorageProvider {
    bucket: String,
    prefix: String,
    store: Arc<AmazonS3>,
}

impl S3StorageProvider {
    pub closed spec fn bucket_chars(&self) -> Seq<char> {
        self.bucket@
    }

    pub closed spec fn prefix_chars(&self) -> Seq<char> {
        self.prefix@
    }

    /// The settings of the client.
    pub closed spec fn settings(&self) -> EndpointSettings {
        client_settings(*self.store)
    }

    /// A bucket behind a custom endpoint.
    pub fn new_with_endpoint(
        endpoint: &str,
        bucket: &str,
        access_key: &str,
        secret_key: &str,
        region: &str,
    ) -> (res: Result<Self, StorageError>)
        ensures
            res matches Ok(provider) ==> provider.bucket_chars() == bucket@
                && provider.prefix_chars() == Seq::<char>::empty() && provider.settings()
                == endpoint_settings(endpoint@, bucket@, access_key@, secret_key@, region@),
            res matches Err(e) ==> (e@ matches StorageFault::Permanent { uri, source: _ } && uri
                == "s3://"@ + bucket@ + " @ "@ + endpoint@),
    {
        match client_for_endpoint(
            endpoint,
            bucket,
            access_key,
            secret_key,
            region,
            true,
            false,
            ConditionalPut::ETagMatch,
        ) {
            Ok(store) => Ok(Self::from_object_store(bucket, store)),
            Err(source) => {
                let mut uri = "s3://".to_owned();
                uri.append(bucket);
                uri.append(" @ ");
                uri.append(endpoint);
                Err(StorageError::Permanent { uri, source })
            },
        }
    }

    /// A bucket behind a custom endpoint, with a table prefix.
    pub fn new_with_endpoint_and_prefix(
        endpoint: &str,
        bucket: &str,
        access_key: &str,
        secret_key: &str,
        region: &str,
        prefix: &str,
    ) -> (res: Result<Self, StorageError>)
        ensures
            res matches Ok(provider) ==> provider.bucket_chars() == bucket@
                && provider.prefix_chars() == trimmed(prefix@) && provider.settings()
                == endpoint_settings(endpoint@, bucket@, access_key@, secret_key@, region@),
            res matches Err(e) ==> (e@ matches StorageFault::Permanent { uri, source: _ } && uri
                == "s3://"@ + bucket@ + " @ "@ + endpoint@),
    {
        match Self::new_with_endpoint(endpoint, bucket, access_key, secret_key, region) {
            Ok(provider) => Ok(provider.with_prefix(prefix)),
            Err(e) => Err(e),
        }
    }

    /// A bucket behind a client that the caller built.
    pub fn from_object_store(bucket: &str, store: AmazonS3) -> (provider: Self)
        ensures
            provider.bucket_chars() == bucket@,
            provider.prefix_chars() == Seq::<char>::empty(),
            provider.settings() == client_settings(store),
    {
        S3StorageProvider {
            bucket: bucket.to_owned(),
            prefix: String::new(),
            store: Arc::new(store),
        }
    }

    /// The same bucket, with a table prefix.
    pub fn with_prefix(self, prefix: &str) -> (provider: Self)
        ensures
            provider.bucket_chars() == self.bucket_chars(),
            provider.prefix_chars() == trimmed(prefix@),
            provider.settings() == self.settings(),
    {
        S3StorageProvider { prefix: normalize_prefix(prefix), ..self }
    }

    /// The bucket.
    pub fn bucket(&self) -> (bucket: &str)
        ensures
            bucket@ == self.bucket_chars(),
    {
        &self.bucket
    }

    /// The prefix.
    pub fn prefix(&self) -> (prefix: &str)
        ensures
            prefix@ == self.prefix_chars(),
    {
        &self.prefix
    }

    /// The client, for requests.
    pub fn store(&self) -> (store: Arc<AmazonS3>)
        ensures
            client_settings(*store) == self.settings(),
    {
        self.store.clone()
    }

    /// The key of an object.
    pub fn key(&self, uri: &str) -> (key: String)
        ensures
            key@ == key_of(self.prefix_chars(), uri@),
    {
        let chars = to_chars(uri);
        let start = skip_slashes(&chars);
        let name = from_chars(&chars, start, chars.len());
        assert(name@ =~= without_leading_slashes(uri@));
        if self.prefix.as_str().is_empty() {
            name
        } else {
            let mut key = self.prefix.clone();
            key.append("/");
            key.append(&name);
            key
        }
    }

    /// The start of the keys of all objects whose URIs start with `prefix`.
    pub fn list_key(&self, prefix: &str) -> (key: String)
        ensures
            key@ == key_of(self.prefix_chars(), prefix@),
    {
        self.key(prefix)
    }

    /// The URI of the object with the given key, if it is one of this
    /// provider's.
    pub fn listed_uri(&self, key: &str) -> (uri: Option<String>)
        ensures
            match uri_of_key(self.prefix_chars(), key@) {
                Some(found) => uri matches Some(uri) && uri@ == found,
                None => uri is None,
            },
    {
        if self.prefix.as_str().is_empty() {
            return Some(key.to_owned());
        }
        let mut start = self.prefix.clone();
        start.append("/");
        let head = to_chars(&start);
        let chars = to_chars(key);
        proof {
            reveal_strlit("/");
        }
        if chars.len() < head.len() {
            return None;
        }
        let mut i: usize = 0;
        while i < head.len()
            invariant
                i <= head@.len() <= chars@.len(),
                head@ == self.prefix_chars() + "/"@,
                chars@ == key@,
                self.prefix_chars().len() > 0,
                forall|k: int| 0 <= k < i ==> head@[k] == chars@[k],
            decreases head.len() - i,
        {
            if head[i] != chars[i] {
                assert(!head@.is_prefix_of(chars@));
                return None;
            }
            i = i + 1;
        }
        assert(head@.is_prefix_of(chars@));
        let rest = from_chars(&chars, head.len(), chars.len());
        assert(rest@ =~= key@.skip(head@.len() as int));
        Some(rest)
    }

    /// The object path of an object.
    pub fn path(&self, uri: &str) -> (res: Result<String, StorageError>)
        ensures
            match parsed_path(key_of(self.prefix_chars(), uri@)) {
                Ok(text) => res matches Ok(path) && path@ == text && text == stripped(
                    key_of(self.prefix_chars(), uri@),
                ),
                Err(reason) => res matches Err(e) && e@ == (StorageFault::Permanent {
                    uri: uri@,
                    source: reason,
                }),
            },
    {
        let key = self.key(uri);
        match object_path(&key) {
            Ok(path) => Ok(path),
            Err(source) => Err(StorageError::Permanent { uri: uri.to_owned(), source }),
        }
    }
}

// ---- Errors -----------------------------------------------------------------

/// `object_store::Error`, carried as it is.
#[verifier::external_type_specification]
#[verifier::external_body]
pub struct ExObjectStoreError(object_store::Error);

/// What kind of error a request ended with; the texts are messages.
#[derive(Debug, Clone, PartialEq, Eq)]
pub enum RequestError {
    NotFound,
    AlreadyExists,
    Precondition,
    Generic(String),
    Other(String),
}

/// [`RequestError`] over sequences of characters.
#[verifier::ext_equal]
pub enum RequestFault {
    NotFound,
    AlreadyExists,
    Precondition,
    Generic(Seq<char>),
    Other(Seq<char>),
}

impl View for RequestError {
    type V = RequestFault;

    open spec fn view(&self) -> RequestFault {
        match self {
            RequestError::NotFound => RequestFault::NotFound,
            RequestError::AlreadyExists => RequestFault::AlreadyExists,
            RequestError::Precondition => RequestFault::Precondition,
            RequestError::Generic(source) => RequestFault::Generic(source@),
            RequestError::Other(source) => RequestFault::Other(source@),
        }
    }
}

/// The variant of an `object_store::Error`, with its message where it is kept.
pub uninterp spec fn request_kind(error: object_store::Error) -> RequestFault;

/// Tells the variants of `object_store::Error` apart; [`request_kind`] names
/// which one it is.
#[verifier::external_body]
fn request_error(error: object_store::Error) -> (res: RequestError)
    ensures
        res@ == request_kind(error),
{
    match error {
        object_store::Error::NotFound { .. } => RequestError::NotFound,
        object_store::Error::AlreadyExists { .. } => RequestError::AlreadyExists,
        object_store::Error::Precondition { .. } => RequestError::Precondition,
        object_store::Error::Generic { source, .. } => RequestError::Generic(source.to_string()),
        other => RequestError::Other(other.to_string()),
    }
}

/// What an error of a request for `uri` means.
pub open spec fn fault_of(uri: Seq<char>, error: RequestFault) -> StorageFault {
    match error {
        RequestFault::NotFound => StorageFault::NotFound { uri },
        RequestFault::AlreadyExists => StorageFault::PreconditionFailed { uri },
        RequestFault::Precondition => StorageFault::PreconditionFailed { uri },
        RequestFault::Generic(source) => StorageFault::TransientExhausted { uri, source },
        RequestFault::Other(source) => StorageFault::Permanent { uri, source },
    }
}

/// What an error of a request for `uri` means.
pub fn storage_error(uri: &str, error: RequestError) -> (res: StorageError)
    ensures
        res@ == fault_of(uri@, error@),
{
    let uri = uri.to_owned();
    match error {
        RequestError::NotFound => StorageError::NotFound { uri },
        RequestError::AlreadyExists => StorageError::PreconditionFailed { uri },
        RequestError::Precondition => StorageError::PreconditionFailed { uri },
        RequestError::Generic(source) => StorageError::TransientExhausted { uri, source },
        RequestError::Other(source) => StorageError::Permanent { uri, source },
    }
}

/// What an error of `object_store` for `uri` means.
pub fn translate(uri: &str, error: object_store::Error) -> (res: StorageError)
    ensures
        res@ == fault_of(uri@, request_kind(error)),
{
    let kind = request_error(error);
    storage_error(uri, kind)
}

/// What the outcome of a delete means: an object that is not there is as
/// good as deleted.
pub fn settle_delete(outcome: Result<(), StorageError>) -> (res: Result<(), StorageError>)
    ensures
        outcome is Ok ==> res is Ok,
        outcome matches Err(e) ==> (if e is NotFound {
            res is Ok
        } else {
            res == Err::<(), StorageError>(e)
        }),
{
    match outcome {
        Ok(_) => Ok(()),
        Err(StorageError::NotFound { .. }) => Ok(()),
        Err(e) => Err(e),
    }
}

// ---- Single requests --------------------------------------------------------

/// The condition of a write.
#[derive(Debug, Clone, PartialEq, Eq)]
pub enum PutCondition {
    /// The object must not be there yet.
    Create,
    /// The object must still carry this tag.
    Match(String),
}

/// The condition of a write that expects the tag `expected_etag`; without a
/// tag the object must not be there yet.
pub fn put_if_match(expected_etag: Option<&str>) -> (condition: PutCondition)
    ensures
        match expected_etag {
            Some(etag) => condition matches PutCondition::Match(tag) && tag@ == etag@,
            None => condition is Create,
        },
{
    match expected_etag {
        Some(etag) => PutCondition::Match(etag.to_owned()),
        None => PutCondition::Create,
    }
}

/// The request that reads the end of an object.
#[derive(Debug, Clone, Copy, PartialEq, Eq)]
pub enum TailRequest {
    /// Only the size is asked for; there are no bytes to read.
    Head,
    /// The last bytes, this many.
    Suffix(u64),
}

/// The request for the last `len` bytes. A suffix of no bytes is no valid
/// range, so only the size is asked for then.
pub fn tail(len: u64) -> (request: TailRequest)
    ensures
        request == (if len == 0 {
            TailRequest::Head
        } else {
            TailRequest::Suffix(len)
        }),
{
    if len == 0 {
        TailRequest::Head
    } else {
        TailRequest::Suffix(len)
    }
}

// ---- Reading a range --------------------------------------------------------

/// How often the rest of a range is requested after a short response.
pub const MAX_SHORT_READ_RETRIES: u32 = 4;

/// How often a request is repeated after a transient failure.
pub const MAX_TRANSIENT_RETRIES: u32 = 8;

/// Is a repeated request worth it? Only transient failures may pass.
pub fn is_retryable_transient(error: &StorageError) -> (res: bool)
    ensures
        res == (error is TransientExhausted),
{
    match error {
        StorageError::TransientExhausted { .. } => true,
        _ => false,
    }
}

/// Milliseconds before the repeat number `attempt`: 50, then twice as much
/// each time, up to 2 seconds.
pub open spec fn backoff_ms(attempt: nat) -> nat
    decreases attempt,
{
    if attempt == 0 {
        50
    } else if 2 * backoff_ms((attempt - 1) as nat) < 2000 {
        2 * backoff_ms((attempt - 1) as nat)
    } else {
        2000
    }
}

/// The wait does not grow any more once it has reached its limit.
proof fn lemma_backoff_is_capped(attempt: nat, later: nat)
    requires
        attempt <= later,
        backoff_ms(attempt) == 2000,
    ensures
        backoff_ms(later) == 2000,
    decreases later,
{
    if attempt < later {
        lemma_backoff_is_capped(attempt, (later - 1) as nat);
    }
}

/// Milliseconds to wait before the repeat number `attempt`.
pub fn transient_backoff(attempt: u32) -> (ms: u64)
    ensures
        ms == backoff_ms(attempt as nat),
        50 <= ms <= 2000,
{
    let mut ms: u64 = 50;
    let mut i: u32 = 0;
    while i < attempt && ms < 2000
        invariant
            i <= attempt,
            ms == backoff_ms(i as nat),
            50 <= ms <= 2000,
        decreases attempt - i,
    {
        ms = if 2 * ms < 2000 {
            2 * ms
        } else {
            2000
        };
        i = i + 1;
    }
    proof {
        if i < attempt {
            lemma_backoff_is_capped(i as nat, attempt as nat);
        }
    }
    ms
}

/// The fault of an object that has fewer bytes than a range asks for.
pub open spec fn short_read_fault(uri: Seq<char>, start: nat, requested: nat, got: nat) ->
    StorageFault {
    StorageFault::Permanent {
        uri,
        source: "get_range short read: object returned "@ + decimal(got) + " of "@ + decimal(
            requested,
        ) + " bytes from offset "@ + decimal(start),
    }
}

/// The error for an object that has fewer bytes than a range asks for. It is
/// permanent: asking again does not help.
pub fn short_read(uri: &str, start: u64, requested: u64, got: u64) -> (error: StorageError)
    ensures
        error@ == short_read_fault(uri@, start as nat, requested as nat, got as nat),
{
    let mut source = "get_range short read: object returned ".to_owned();
    push_decimal(&mut source, got);
    source.append(" of ");
    push_decimal(&mut source, requested);
    source.append(" bytes from offset ");
    push_decimal(&mut source, start);
    StorageError::Permanent { uri: uri.to_owned(), source }
}

/// A read of the bytes from `start` up to `end` of an object, under way.
pub struct RangeRead {
    uri: String,
    start: u64,
    end: u64,
    bytes: Vec<u8>,
    stalls: u32,
    transient_retries: u32,
}

/// [`RangeRead`] over sequences.
#[verifier::ext_equal]
pub struct RangeView {
    pub uri: Seq<char>,
    pub start: nat,
    pub end: nat,
    pub bytes: Seq<u8>,
    pub stalls: nat,
    pub transient_retries: nat,
}

/// What came back of a request.
#[derive(Debug, Clone, PartialEq, Eq)]
pub enum RangeEvent {
    /// Bytes from the requested offset on.
    Chunk(Vec<u8>),
    /// The request failed.
    Failed(StorageError),
}

/// What to do next.
#[derive(Debug, Clone, PartialEq, Eq)]
pub enum RangeAction {
    /// Wait so many milliseconds, then request the bytes from `start` up to
    /// `end`.
    Fetch { after_ms: u64, start: u64, end: u64 },
    /// The range is complete.
    Done(Vec<u8>),
    /// The range cannot be read.
    Fail(StorageError),
}

/// [`RangeAction`] over sequences.
#[verifier::ext_equal]
pub enum ActionView {
    Fetch { after_ms: nat, start: nat, end: nat },
    Done(Seq<u8>),
    Fail(StorageFault),
}

impl View for RangeAction {
    type V = ActionView;

    open spec fn view(&self) -> ActionView {
        match self {
            RangeAction::Fetch { after_ms, start, end } => ActionView::Fetch {
                after_ms: *after_ms as nat,
                start: *start as nat,
                end: *end as nat,
            },
            RangeAction::Done(bytes) => ActionView::Done(bytes@),
            RangeAction::Fail(error) => ActionView::Fail(error@),
        }
    }
}

impl View for RangeRead {
    type V = RangeView;

    closed spec fn view(&self) -> RangeView {
        RangeView {
            uri: self.uri@,
            start: self.start as nat,
            end: self.end as nat,
            bytes: self.bytes@,
            stalls: self.stalls as nat,
            transient_retries: self.transient_retries as nat,
        }
    }
}

impl RangeView {
    /// How many bytes are asked for.
    pub open spec fn want(self) -> nat {
        if self.start <= self.end {
            (self.end - self.start) as nat
        } else {
            0
        }
    }

    /// The read is not complete, and the retries are within their budgets.
    pub open spec fn wf(self) -> bool {
        &&& self.end <= u64::MAX
        &&& self.start < self.end
        &&& self.bytes.len() < self.want()
        &&& self.stalls <= MAX_SHORT_READ_RETRIES
        &&& self.transient_retries <= MAX_TRANSIENT_RETRIES
    }

    /// The request for what is missing.
    pub open spec fn fetch(self, after_ms: nat) -> ActionView {
        ActionView::Fetch {
            after_ms,
            start: self.start + self.bytes.len(),
            end: self.end,
        }
    }

    /// The fault if the object ends here.
    pub open spec fn short(self) -> ActionView {
        ActionView::Fail(
            short_read_fault(self.uri, self.start, self.want(), self.bytes.len()),
        )
    }

    /// The read and the next action after a failed request.
    pub open spec fn after_failure(self, error: StorageError) -> (RangeView, ActionView) {
        if error is TransientExhausted && self.transient_retries < MAX_TRANSIENT_RETRIES {
            (
                RangeView { transient_retries: self.transient_retries + 1, ..self },
                self.fetch(backoff_ms(self.transient_retries)),
            )
        } else {
            (self, ActionView::Fail(error@))
        }
    }

    /// The read and the next action after a response; of a response that is
    /// too long the start counts.
    pub open spec fn after_chunk(self, chunk: Seq<u8>) -> (RangeView, ActionView) {
        let room = (self.want() - self.bytes.len()) as nat;
        let taken = if chunk.len() <= room {
            chunk
        } else {
            chunk.take(room as int)
        };
        let next = RangeView { bytes: self.bytes + taken, ..self };
        if chunk.len() == 0 {
            (self, self.short())
        } else if next.bytes.len() >= self.want() {
            (next, ActionView::Done(next.bytes))
        } else if self.stalls + 1 > MAX_SHORT_READ_RETRIES {
            (RangeView { stalls: self.stalls + 1, ..next }, next.short())
        } else {
            (RangeView { stalls: self.stalls + 1, ..next }, next.fetch(0))
        }
    }
}

impl RangeRead {
    /// Starts the read of `start..end`. An empty range is complete at once.
    pub fn begin(uri: &str, start: u64, end: u64) -> (res: (Self, RangeAction))
        ensures
            res.0@ == (RangeView {
                uri: uri@,
                start: start as nat,
                end: end as nat,
                bytes: Seq::empty(),
                stalls: 0,
                transient_retries: 0,
            }),
            start >= end ==> res.1@ == ActionView::Done(Seq::empty()),
            start < end ==> res.0@.wf() && res.1@ == res.0@.fetch(0),
    {
        let read = RangeRead {
            uri: uri.to_owned(),
            start,
            end,
            bytes: Vec::new(),
            stalls: 0,
            transient_retries: 0,
        };
        let action = if start >= end {
            let none: Vec<u8> = Vec::new();
            assert(none@ =~= Seq::<u8>::empty());
            RangeAction::Done(none)
        } else {
            RangeAction::Fetch { after_ms: 0, start, end }
        };
        assert(read@.bytes =~= Seq::<u8>::empty());
        (read, action)
    }

    /// Takes in what came back of a request, and says what to do next.
    ///
    /// A transient failure is repeated after a growing wait. A response that
    /// is short is followed by a request for what is missing; an empty one,
    /// or too many short ones, mean that the object is too small.
    pub fn get_range(self, event: RangeEvent) -> (res: (Self, RangeAction))
        requires
            self@.wf(),
        ensures
            event matches RangeEvent::Failed(error) ==> (res.0@, res.1@) == self@.after_failure(
                error,
            ),
            event matches RangeEvent::Chunk(chunk) ==> (res.0@, res.1@) == self@.after_chunk(
                chunk@,
            ),
            res.1@ is Fetch ==> res.0@.wf(),
    {
        let ghost before = self@;
        let mut read = self;
        match event {
            RangeEvent::Failed(error) => {
                if is_retryable_transient(&error) && read.transient_retries < MAX_TRANSIENT_RETRIES {
                    let after_ms = transient_backoff(read.transient_retries);
                    read.transient_retries = read.transient_retries + 1;
                    let start = read.start + read.bytes.len() as u64;
                    let end = read.end;
                    return (read, RangeAction::Fetch { after_ms, start, end });
                }
                (read, RangeAction::Fail(error))
            },
            RangeEvent::Chunk(chunk) => {
                let want = read.end - read.start;
                if chunk.len() == 0 {
                    let error = short_read(
                        &read.uri,
                        read.start,
                        want,
                        read.bytes.len() as u64,
                    );
                    return (read, RangeAction::Fail(error));
                }
                let room = want - read.bytes.len() as u64;
                let ghost taken = before.after_chunk(chunk@).0.bytes;
                if chunk.len() as u64 <= room {
                    read.bytes.extend_from_slice(&chunk);
                } else {
                    read.bytes.extend_from_slice(
                        vstd::slice::slice_subrange(&chunk, 0, room as usize),
                    );
                    assert(chunk@.subrange(0, room as int) =~= chunk@.take(room as int));
                }
                assert(read.bytes@ =~= taken);
                if read.bytes.len() as u64 >= want {
                    let bytes = vstd::slice::slice_to_vec(read.bytes.as_slice());
                    return (read, RangeAction::Done(bytes));
                }
                read.stalls = read.stalls + 1;
                if read.stalls > MAX_SHORT_READ_RETRIES {
                    let error = short_read(
                        &read.uri,
                        read.start,
                        want,
                        read.bytes.len() as u64,
                    );
                    return (read, RangeAction::Fail(error));
                }
                let start = read.start + read.bytes.len() as u64;
                let end = read.end;
                (read, RangeAction::Fetch { after_ms: 0, start, end })
            },
        }
    }
}

/// Are the bytes read so far those of `object`?
pub open spec fn agrees_with(read: RangeView, object: Seq<u8>) -> bool {
    &&& read.start + read.bytes.len() <= object.len()
    &&& read.bytes == object.subrange(read.start as int, (read.start + read.bytes.len()) as int)
}

/// If each response holds bytes of the object from the requested offset on,
/// a completed read holds exactly the requested range of the object.
pub proof fn lemma_range_read_is_exact(read: RangeView, object: Seq<u8>, chunk: Seq<u8>)
    requires
        read.wf(),
        agrees_with(read, object),
        chunk.is_prefix_of(object.skip((read.start + read.bytes.len()) as int)),
    ensures
        agrees_with(read.after_chunk(chunk).0, object),
        read.after_chunk(chunk).1 matches ActionView::Done(bytes) ==> bytes == object.subrange(
            read.start as int,
            read.end as int,
        ) && bytes.len() == read.want(),
{
    let (next, action) = read.after_chunk(chunk);
    if chunk.len() > 0 {
        let at = (read.start + read.bytes.len()) as int;
        assert(next.bytes =~= object.subrange(
            read.start as int,
            (read.start + next.bytes.len()) as int,
        )) by {
            assert forall|i: int| 0 <= i < next.bytes.len() implies next.bytes[i]
                == object[read.start + i] by {
                if i >= read.bytes.len() {
                    assert(chunk[i - read.bytes.len()] == object.skip(at)[i - read.bytes.len()]);
                } else {
                    assert(read.bytes[i] == object.subrange(read.start as int, at)[i]);
                }
            }
        }
    }
}

/// Requests that are still allowed after this one.
pub open spec fn requests_left(read: RangeView) -> int {
    (MAX_SHORT_READ_RETRIES - read.stalls) + (MAX_TRANSIENT_RETRIES - read.transient_retries)
}

/// Every further request uses up one of the retries, so a read ends.
pub proof fn lemma_range_read_ends(read: RangeView, error: StorageError, chunk: Seq<u8>)
    requires
        read.wf(),
    ensures
        read.after_failure(error).1 is Fetch ==> 0 <= requests_left(read.after_failure(error).0)
            < requests_left(read),
        read.after_chunk(chunk).1 is Fetch ==> 0 <= requests_left(read.after_chunk(chunk).0)
            < requests_left(read),
{
}

// ---- What keys, faults and reads come to ------------------------------------

proof fn lemma_leading_slashes(s: Seq<char>) -> (n: int)
    ensures
        0 <= n <= s.len(),
        forall|i: int| 0 <= i < n ==> #[trigger] s[i] == '/',
        n < s.len() ==> s[n] != '/',
        without_leading_slashes(s) == s.skip(n),
    decreases s.len(),
{
    if s.len() > 0 && s[0] == '/' {
        let rest = s.subrange(1, s.len() as int);
        let n = lemma_leading_slashes(rest);
        assert forall|i: int| 0 <= i < n + 1 implies #[trigger] s[i] == '/' by {
            if i > 0 {
                assert(rest[i - 1] == s[i]);
            }
        }
        assert(rest.skip(n) =~= s.skip(n + 1));
        if n < rest.len() {
            assert(rest[n] == s[n + 1]);
        }
        n + 1
    } else {
        assert(s.skip(0) =~= s);
        0
    }
}

proof fn lemma_trailing_slashes(s: Seq<char>) -> (n: int)
    ensures
        0 <= n <= s.len(),
        forall|i: int| n <= i < s.len() ==> #[trigger] s[i] == '/',
        n > 0 ==> s[n - 1] != '/',
        without_trailing_slashes(s) == s.take(n),
    decreases s.len(),
{
    if s.len() > 0 && s.last() == '/' {
        let rest = s.drop_last();
        let n = lemma_trailing_slashes(rest);
        assert forall|i: int| n <= i < s.len() implies #[trigger] s[i] == '/' by {
            if i < rest.len() {
                assert(rest[i] == s[i]);
            }
        }
        assert(rest.take(n) =~= s.take(n));
        if n > 0 {
            assert(rest[n - 1] == s[n - 1]);
        }
        n
    } else {
        assert(s.take(s.len() as int) =~= s);
        s.len() as int
    }
}

/// A prefix keeps everything but the slashes at its two ends.
pub proof fn lemma_prefix_loses_only_slashes(prefix: &str, res: String)
    requires
        call_ensures(normalize_prefix, (prefix,), res),
    ensures
        exists|a: int, b: int|
            {
                &&& 0 <= a <= b <= prefix@.len()
                &&& res@ == #[trigger] prefix@.subrange(a, b)
                &&& forall|i: int| 0 <= i < a ==> #[trigger] prefix@[i] == '/'
                &&& forall|i: int| b <= i < prefix@.len() ==> #[trigger] prefix@[i] == '/'
            },
        res@.len() > 0 ==> res@[0] != '/' && res@[res@.len() - 1] != '/',
{
    let a = lemma_leading_slashes(prefix@);
    let rest = prefix@.skip(a);
    let n = lemma_trailing_slashes(rest);
    let b = a + n;
    assert(res@ =~= prefix@.subrange(a, b));
    assert forall|i: int| b <= i < prefix@.len() implies #[trigger] prefix@[i] == '/' by {
        assert(rest[i - a] == prefix@[i]);
    }
    if res@.len() > 0 {
        assert(res@[0] == prefix@[a]);
        assert(rest[n - 1] == res@[res@.len() - 1]);
    }
}

/// The key of an object is its URI without the slashes at its start, behind
/// the prefix and a slash if there is a prefix.
pub proof fn lemma_key_is_prefix_and_uri(provider: S3StorageProvider, uri: &str, key: String)
    requires
        call_ensures(S3StorageProvider::key, (&provider, uri), key),
    ensures
        exists|n: int|
            {
                &&& 0 <= n <= uri@.len()
                &&& forall|i: int| 0 <= i < n ==> #[trigger] uri@[i] == '/'
                &&& n < uri@.len() ==> uri@[n] != '/'
                &&& key@ == if provider.prefix_chars().len() == 0 {
                    #[trigger] uri@.skip(n)
                } else {
                    provider.prefix_chars() + seq!['/'] + uri@.skip(n)
                }
            },
{
    reveal_strlit("/");
    let n = lemma_leading_slashes(uri@);
    assert("/"@ =~= seq!['/']);
    assert(uri@.skip(n) == without_leading_slashes(uri@));
}

/// Objects that are listed come under the URI that leads to their key again;
/// one outside the prefix is none of the provider's.
pub proof fn lemma_listed_objects_are_found(
    provider: S3StorageProvider,
    key: &str,
    listed: Option<String>,
)
    requires
        call_ensures(S3StorageProvider::listed_uri, (&provider, key), listed),
    ensures
        provider.prefix_chars().len() == 0 ==> (listed is Some && listed->0@ == key@),
        provider.prefix_chars().len() > 0 ==> (listed is Some <==> (provider.prefix_chars()
            + seq!['/']).is_prefix_of(key@)),
        provider.prefix_chars().len() > 0 && listed is Some ==> key@ == provider.prefix_chars()
            + seq!['/'] + listed->0@,
{
    reveal_strlit("/");
    assert("/"@ =~= seq!['/']);
    let start = provider.prefix_chars() + "/"@;
    if provider.prefix_chars().len() > 0 && start.is_prefix_of(key@) {
        assert(key@ =~= start + key@.skip(start.len() as int));
    }
}

/// An object that is missing is not found; one that is there or has changed
/// fails the condition of a write; a failure that may pass is transient; and
/// every other is permanent. The URI is the one that was asked for.
pub proof fn lemma_what_errors_mean(uri: &str, error: RequestError, res: StorageError)
    requires
        call_ensures(storage_error, (uri, error), res),
    ensures
        error is NotFound <==> res is NotFound,
        error is AlreadyExists || error is Precondition <==> res is PreconditionFailed,
        error is Generic <==> res is TransientExhausted,
        error is Other <==> res is Permanent,
        res matches StorageError::NotFound { uri: of } ==> of@ == uri@,
        res matches StorageError::PreconditionFailed { uri: of } ==> of@ == uri@,
        res matches StorageError::TransientExhausted { uri: of, source } ==> of@ == uri@ && source@
            == error->Generic_0@,
        res matches StorageError::Permanent { uri: of, source } ==> of@ == uri@ && source@
            == error->Other_0@,
{
}

/// A delete fails exactly if the request failed for another reason than that
/// there is nothing to delete.
pub proof fn lemma_delete_of_nothing(
    outcome: Result<(), StorageError>,
    res: Result<(), StorageError>,
)
    requires
        call_ensures(settle_delete, (outcome,), res),
    ensures
        res is Ok <==> outcome is Ok || outcome->Err_0 is NotFound,
        res is Err ==> res == outcome,
{
}

/// The wait before a repeat is 50 milliseconds, doubled with each repeat, and
/// never more than two seconds.
pub proof fn lemma_wait_doubles(attempt: u32, ms: u64)
    requires
        call_ensures(transient_backoff, (attempt,), ms),
    ensures
        ms as int == if 50 * pow(2, attempt as nat) < 2000 {
            50 * pow(2, attempt as nat)
        } else {
            2000
        },
{
    lemma_backoff_is_power(attempt as nat);
}

proof fn lemma_backoff_is_power(attempt: nat)
    ensures
        backoff_ms(attempt) as int == if 50 * pow(2, attempt) < 2000 {
            50 * pow(2, attempt)
        } else {
            2000
        },
    decreases attempt,
{
    if attempt == 0 {
        lemma_pow0(2);
    } else {
        let e = (attempt - 1) as nat;
        lemma_backoff_is_power(e);
        lemma_pow_adds(2, 1, e);
        lemma_pow1(2);
        lemma_pow_positive(2, e);
    }
}

/// After a failure a read asks again for exactly what is missing, if the
/// failure may pass and has been met fewer than eight times; otherwise the
/// read ends with the failure. What was read stays.
pub proof fn lemma_read_after_failure(
    read: RangeRead,
    error: StorageError,
    res: (RangeRead, RangeAction),
)
    requires
        call_ensures(RangeRead::get_range, (read, RangeEvent::Failed(error)), res),
        read@.wf(),
    ensures
        res.0@.bytes == read@.bytes,
        res.0@.start == read@.start,
        res.0@.end == read@.end,
        error is TransientExhausted && read@.transient_retries < 8 ==> res.1 is Fetch
            && res.1->start == read@.start + read@.bytes.len() && res.1->end == read@.end
            && res.1->after_ms as int == (if 50 * pow(2, read@.transient_retries) < 2000 {
            50 * pow(2, read@.transient_retries)
        } else {
            2000
        }) && res.0@.transient_retries == read@.transient_retries + 1,
        !(error is TransientExhausted) || read@.transient_retries >= 8 ==> res.1 is Fail
            && res.1->Fail_0@ == error@,
{
    lemma_backoff_is_power(read@.transient_retries);
}

/// After a response a read has what it had and the bytes of the response as
/// far as they are asked for. It is done exactly if it then has all of them.
/// Otherwise it asks for exactly what is missing, unless the response was
/// empty or the fifth that was short: the object is too small then.
pub proof fn lemma_read_after_response(
    read: RangeRead,
    chunk: Vec<u8>,
    res: (RangeRead, RangeAction),
)
    requires
        call_ensures(RangeRead::get_range, (read, RangeEvent::Chunk(chunk)), res),
        read@.wf(),
    ensures
        ({
            let want = read@.end - read@.start;
            let has = read@.bytes + chunk@;
            &&& res.1 is Done <==> has.len() >= want
            &&& res.1 matches RangeAction::Done(bytes) ==> bytes@ == has.take(want)
            &&& has.len() < want && chunk@.len() > 0 && read@.stalls < 4 ==> res.1 is Fetch
                && res.1->after_ms == 0 && res.1->start == read@.start + has.len() && res.1->end
                == read@.end && res.0@.bytes == has && res.0@.stalls == read@.stalls + 1
            &&& has.len() < want && (chunk@.len() == 0 || read@.stalls >= 4) ==> res.1 is Fail
                && res.1->Fail_0 is Permanent
            &&& res.0@.start == read@.start && res.0@.end == read@.end
            &&& res.0@.transient_retries == read@.transient_retries
        }),
{
    let want = read@.end - read@.start;
    let has = read@.bytes + chunk@;
    let (next, action) = read@.after_chunk(chunk@);
    if has.len() >= want {
        assert(next.bytes =~= has.take(want));
    } else {
        assert(has =~= read@.bytes + chunk@);
    }
}

/// A client for a custom endpoint asks for the bucket by path, speaks plain HTTP
/// if it has to, makes writes conditional on a tag, and holds the credential and
/// the region that it was given; the prefix loses the slashes at its ends.
pub proof fn lemma_client_is_as_given(
    endpoint: &str,
    bucket: &str,
    access_key: &str,
    secret_key: &str,
    region: &str,
    prefix: &str,
    res: Result<S3StorageProvider, StorageError>,
)
    requires
        call_ensures(
            S3StorageProvider::new_with_endpoint_and_prefix,
            (endpoint, bucket, access_key, secret_key, region, prefix),
            res,
        ),
        endpoint@.len() > 0,
        endpoint@[endpoint@.len() - 1] != '/',
    ensures
        res matches Ok(provider) ==> provider.bucket_chars() == bucket@
            && provider.settings().bucket == bucket@ && provider.settings().bucket_endpoint
            == endpoint@ + seq!['/'] + bucket@ && provider.settings().access_key == access_key@
            && provider.settings().secret_key == secret_key@ && provider.settings().region
            == region@ && provider.settings().allow_http
            && provider.settings().conditional_put == ConditionalPut::ETagMatch
            && provider.prefix_chars() == trimmed(prefix@),
        res matches Err(e) ==> e is Permanent,
{
    reveal_strlit("/");
    assert("/"@ =~= seq!['/']);
    let n = lemma_trailing_slashes(endpoint@);
    assert(n == endpoint@.len()) by {
        if n < endpoint@.len() {
            assert(endpoint@[endpoint@.len() - 1] == '/');
        }
    }
    assert(endpoint@.take(n) =~= endpoint@);
}

/// A read asks for its whole range first, unless that is empty; and a write is
/// conditional on the tag that was expected, or on there being no object.
pub proof fn lemma_first_requests(
    uri: &str,
    start: u64,
    end: u64,
    begun: (RangeRead, RangeAction),
    expected: Option<&str>,
    condition: PutCondition,
    len: u64,
    request: TailRequest,
)
    requires
        call_ensures(RangeRead::begin, (uri, start, end), begun),
        call_ensures(put_if_match, (expected,), condition),
        call_ensures(tail, (len,), request),
    ensures
        begun.0@.start == start && begun.0@.end == end && begun.0@.bytes.len() == 0,
        begun.1 is Done <==> start >= end,
        begun.1 matches RangeAction::Done(bytes) ==> bytes@.len() == 0,
        begun.1 matches RangeAction::Fetch { after_ms, start: from, end: to } ==> after_ms == 0
            && from == start && to == end,
        condition is Create <==> expected is None,
        condition matches PutCondition::Match(tag) ==> tag@ == expected->0@,
        request is Head <==> len == 0,
        request matches TailRequest::Suffix(n) ==> n == len,
{
}

} // verus!
