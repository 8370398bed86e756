//! Bucket storage: addresses, object names and what a synchronization moves.

use vstd::prelude::*;

use crate::text::{
    begins_with, contains_text, copy_str, from_chars, holds, push_str, same_text, starts_with,
    to_chars,
};

verus! {

/// A failure of bucket storage.
#[derive(Debug, Clone, Copy, PartialEq, Eq, Structural)]
pub enum BucketError {
    /// The address has no scheme that is known.
    UnsupportedUrl,
    /// The bucket may only be read.
    ReadOnly,
}

impl BucketError {
    /// The message of the error.
    pub fn message(&self) -> (r: String)
        ensures
            r@ == (match *self {
                BucketError::UnsupportedUrl =>
                    "Unsupported storage URL. Use s3://bucket/path or gs://bucket/path"@,
                BucketError::ReadOnly => "Cannot write to readonly bucket"@,
            }),
    {
        match self {
            BucketError::UnsupportedUrl => copy_str(
                "Unsupported storage URL. Use s3://bucket/path or gs://bucket/path",
            ),
            BucketError::ReadOnly => copy_str("Cannot write to readonly bucket"),
        }
    }
}

/// The service that holds a bucket.
#[derive(Debug, Clone, Copy, PartialEq, Eq, Structural)]
pub enum Provider {
    /// S3, or a service that speaks its protocol.
    S3,
    /// Google Cloud Storage.
    Gcs,
}

/// Position of the first slash from `i` on, or the length where there is none.
pub open spec fn first_slash(s: Seq<char>, i: int) -> int
    decreases s.len() - i,
{
    if i >= s.len() || s[i] == '/' {
        i
    } else {
        first_slash(s, i + 1)
    }
}

/// The provider of an address.
pub open spec fn provider_of(url: Seq<char>) -> Option<Provider> {
    if begins_with(url, "s3://"@) {
        Some(Provider::S3)
    } else if begins_with(url, "gs://"@) {
        Some(Provider::Gcs)
    } else {
        None
    }
}

/// What follows the scheme of an address.
pub open spec fn behind_scheme(url: Seq<char>) -> Seq<char> {
    url.skip(5)
}

/// The bucket of an address: up to the first slash behind the scheme.
pub open spec fn bucket_of(url: Seq<char>) -> Seq<char> {
    let rest = behind_scheme(url);
    rest.take(first_slash(rest, 0))
}

/// The path of an address: behind the first slash that follows the scheme; empty where there
/// is no slash, or no known scheme.
pub open spec fn base_of(url: Seq<char>) -> Seq<char> {
    let rest = behind_scheme(url);
    let n = first_slash(rest, 0);
    if provider_of(url) is Some && n < rest.len() {
        rest.skip(n + 1)
    } else {
        Seq::empty()
    }
}

/// The name of an object at a path below a base.
pub open spec fn object_name(base: Seq<char>, path: Seq<char>) -> Seq<char> {
    if base.len() == 0 {
        path
    } else {
        base.push('/') + path
    }
}

/// The path below a base of an object with a given name. A name that is not below the base
/// stays as it is.
pub open spec fn path_below(base: Seq<char>, name: Seq<char>) -> Seq<char> {
    if base.len() > 0 && begins_with(name, base.push('/')) {
        name.skip(base.len() as int + 1)
    } else {
        name
    }
}

fn find_slash(s: &[char]) -> (r: usize)
    ensures
        r == first_slash(s@, 0),
        r <= s@.len(),
{
    let mut i: usize = 0;
    while i < s.len() && s[i] != '/'
        invariant
            i <= s@.len(),
            first_slash(s@, 0) == first_slash(s@, i as int),
        decreases s@.len() - i,
    {
        i = i + 1;
    }
    i
}

/// A bucket with the address it was opened at.
#[derive(Debug)]
pub struct BucketStorage {
    /// The address.
    pub url: String,
    /// The service that holds the bucket.
    pub provider: Provider,
    /// Whether the bucket may only be read.
    pub readonly: bool,
}

impl BucketStorage {
    /// Opens a bucket at an address.
    pub fn connect(url: &str) -> (r: Result<Self, BucketError>)
        ensures
            match r {
                Ok(b) => provider_of(url@) == Some(b.provider) && b.url@ == url@ && !b.readonly,
                Err(e) => provider_of(url@) is None && e == BucketError::UnsupportedUrl,
            },
    {
        let chars = to_chars(url);
        if starts_with(chars.as_slice(), "s3://") {
            Ok(BucketStorage { url: copy_str(url), provider: Provider::S3, readonly: false })
        } else if starts_with(chars.as_slice(), "gs://") {
            Ok(BucketStorage { url: copy_str(url), provider: Provider::Gcs, readonly: false })
        } else {
            Err(BucketError::UnsupportedUrl)
        }
    }

    /// Sets whether the bucket may only be read.
    pub fn set_readonly(&mut self, readonly: bool)
        ensures
            *final(self) == (BucketStorage { readonly, ..*old(self) }),
    {
        self.readonly = readonly;
    }

    /// The name of the bucket.
    pub fn bucket_name(&self) -> (r: String)
        requires
            provider_of(self.url@) is Some,
        ensures
            r@ == bucket_of(self.url@),
    {
        let chars = to_chars(self.url.as_str());
        proof {
            reveal_strlit("s3://");
            reveal_strlit("gs://");
        }
        let rest = from_chars(chars.as_slice(), 5, chars.len());
        assert(rest@ =~= behind_scheme(self.url@));
        let rest_chars = to_chars(rest.as_str());
        let n: usize = find_slash(rest_chars.as_slice());
        let name = from_chars(rest_chars.as_slice(), 0, n);
        assert(name@ =~= bucket_of(self.url@));
        name
    }

    /// The path of the address.
    pub fn base_path(&self) -> (r: String)
        ensures
            r@ == base_of(self.url@),
    {
        let chars = to_chars(self.url.as_str());
        if !starts_with(chars.as_slice(), "s3://") && !starts_with(chars.as_slice(), "gs://") {
            let none = String::new();
            assert(none@ =~= base_of(self.url@));
            return none;
        }
        proof {
            reveal_strlit("s3://");
            reveal_strlit("gs://");
        }
        let rest = from_chars(chars.as_slice(), 5, chars.len());
        assert(rest@ =~= behind_scheme(self.url@));
        let rest_chars = to_chars(rest.as_str());
        let n: usize = find_slash(rest_chars.as_slice());
        let base = if n < rest_chars.len() {
            from_chars(rest_chars.as_slice(), n + 1, rest_chars.len())
        } else {
            String::new()
        };
        assert(base@ =~= base_of(self.url@));
        base
    }

    /// The name of an object at a path.
    pub fn object_path(&self, path: &str) -> (r: String)
        ensures
            r@ == object_name(base_of(self.url@), path@),
    {
        let mut name = self.base_path();
        if name.as_str().unicode_len() == 0 {
            return copy_str(path);
        }
        name.push('/');
        push_str(&mut name, path);
        name
    }

    /// The name of the database configuration.
    pub fn config_path(&self) -> (r: String)
        ensures
            r@ == object_name(base_of(self.url@), ".aresadb/config.toml"@),
    {
        self.object_path(".aresadb/config.toml")
    }

    /// The path of an object with a given name.
    pub fn relative_path(&self, name: &str) -> (r: String)
        ensures
            r@ == path_below(base_of(self.url@), name@),
    {
        let mut prefix = self.base_path();
        let n: usize = prefix.as_str().unicode_len();
        if n == 0 {
            return copy_str(name);
        }
        prefix.push('/');
        let chars = to_chars(name);
        if starts_with(chars.as_slice(), prefix.as_str()) {
            let total: usize = chars.len();
            assert(n < total);
            let rest = from_chars(chars.as_slice(), n + 1, total);
            assert(rest@ =~= name@.skip(n + 1));
            rest
        } else {
            copy_str(name)
        }
    }

    /// Fails where the bucket may only be read.
    pub fn check_writable(&self) -> (r: Result<(), BucketError>)
        ensures
            r == (if self.readonly {
                Err::<(), BucketError>(BucketError::ReadOnly)
            } else {
                Ok(())
            }),
    {
        if self.readonly {
            Err(BucketError::ReadOnly)
        } else {
            Ok(())
        }
    }

    /// What a synchronization moves, from the paths and the times of change, in nanoseconds,
    /// of the local and of the remote files.
    pub fn sync_with_local(
        &self,
        local: &[(String, i128)],
        remote: &[(String, i128)],
    ) -> (r: SyncPlan)
        ensures
            r.uploads@ == (if self.readonly {
                Seq::empty()
            } else {
                newer_than(local@, remote@)
            }),
            r.downloads@ == newer_than(remote@, local@),
    {
        let uploads = if self.readonly {
            Vec::new()
        } else {
            newer(local, remote)
        };
        SyncPlan { uploads, downloads: newer(remote, local) }
    }
}

/// Whether a custom endpoint is plain HTTP.
pub fn allows_http(endpoint: &str) -> (r: bool)
    ensures
        r == begins_with(endpoint@, "http://"@),
{
    let chars = to_chars(endpoint);
    starts_with(chars.as_slice(), "http://")
}

/// What a synchronization moves, as positions among the local and the remote files.
#[derive(Debug)]
pub struct SyncPlan {
    /// Local files to upload.
    pub uploads: Vec<usize>,
    /// Remote files to download.
    pub downloads: Vec<usize>,
}

/// When the last of some files with a path changed.
pub open spec fn changed_at(files: Seq<(String, i128)>, path: Seq<char>) -> Option<i128>
    decreases files.len(),
{
    if files.len() == 0 {
        None
    } else if files.last().0@ == path {
        Some(files.last().1)
    } else {
        changed_at(files.drop_last(), path)
    }
}

/// Whether a file is to be copied: it is missing on the other side, or newer than there.
pub open spec fn to_copy(file: (String, i128), other: Seq<(String, i128)>) -> bool {
    match changed_at(other, file.0@) {
        Some(t) => file.1 > t,
        None => true,
    }
}

/// The positions of the files that are to be copied.
pub open spec fn newer_than(files: Seq<(String, i128)>, other: Seq<(String, i128)>) -> Seq<usize>
    decreases files.len(),
{
    if files.len() == 0 {
        Seq::empty()
    } else {
        let head = newer_than(files.drop_last(), other);
        if to_copy(files.last(), other) {
            head.push((files.len() - 1) as usize)
        } else {
            head
        }
    }
}

fn find_time(files: &[(String, i128)], path: &str) -> (r: Option<i128>)
    ensures
        r == changed_at(files@, path@),
{
    let mut i: usize = files.len();
    assert(files@.take(i as int) =~= files@);
    while i > 0
        invariant
            i <= files@.len(),
            changed_at(files@, path@) == changed_at(files@.take(i as int), path@),
        decreases i,
    {
        let ghost head = files@.take(i as int);
        i = i - 1;
        assert(head.drop_last() =~= files@.take(i as int));
        assert(head.last() == files@[i as int]);
        if same_text(files[i].0.as_str(), path) {
            return Some(files[i].1);
        }
    }
    None
}

fn newer(files: &[(String, i128)], other: &[(String, i128)]) -> (r: Vec<usize>)
    ensures
        r@ == newer_than(files@, other@),
{
    let mut out: Vec<usize> = Vec::new();
    let mut i: usize = 0;
    while i < files.len()
        invariant
            i <= files@.len(),
            out@ == newer_than(files@.take(i as int), other@),
        decreases files@.len() - i,
    {
        proof {
            assert(files@.take(i + 1).drop_last() =~= files@.take(i as int));
            assert(files@.take(i + 1).last() == files@[i as int]);
        }
        let copy: bool = match find_time(other, files[i].0.as_str()) {
            Some(t) => files[i].1 > t,
            None => true,
        };
        if copy {
            out.push(i);
        }
        i = i + 1;
    }
    assert(files@.take(i as int) =~= files@);
    out
}

/// Length of a text without the slashes at its end.
pub open spec fn slashes_start(s: Seq<char>, n: int) -> int
    decreases n,
{
    if n <= 0 || s[n - 1] != '/' {
        n
    } else {
        slashes_start(s, n - 1)
    }
}

/// The base address of a local emulator of Google Cloud Storage: slashes at the end go, and
/// the path of the service is added where it is missing.
pub open spec fn emulator_url(endpoint: Seq<char>) -> Seq<char> {
    let trimmed = endpoint.take(slashes_start(endpoint, endpoint.len() as int));
    if holds(trimmed, "/storage/v1"@) {
        trimmed
    } else {
        trimmed + "/storage/v1/b"@
    }
}

/// The base address of a local emulator of Google Cloud Storage.
pub fn normalize_gcs_emulator_url(endpoint: &str) -> (r: String)
    ensures
        r@ == emulator_url(endpoint@),
{
    let chars = to_chars(endpoint);
    let mut n: usize = chars.len();
    while n > 0 && chars[n - 1] == '/'
        invariant
            n <= chars@.len(),
            slashes_start(chars@, chars@.len() as int) == slashes_start(chars@, n as int),
        decreases n,
    {
        n = n - 1;
    }
    let mut url = from_chars(chars.as_slice(), 0, n);
    assert(url@ =~= chars@.take(n as int));
    let trimmed = to_chars(url.as_str());
    if !contains_text(trimmed.as_slice(), "/storage/v1") {
        push_str(&mut url, "/storage/v1/b");
    }
    url
}

/// The account of an emulator, which needs no authorization.
pub open spec fn emulator_account(base_url: Seq<char>) -> Seq<char> {
    "{\"gcs_base_url\":\""@ + base_url
        + "\",\"disable_oauth\":true,\"client_email\":\"fake@emulator.local\",\"private_key\":\"\",\"private_key_id\":\"\"}"@
}

/// The account of an emulator, which needs no authorization, as JSON.
pub fn emulator_service_account_json(base_url: &str) -> (r: String)
    ensures
        r@ == emulator_account(base_url@),
{
    let mut json = copy_str("{\"gcs_base_url\":\"");
    push_str(&mut json, base_url);
    push_str(
        &mut json,
        "\",\"disable_oauth\":true,\"client_email\":\"fake@emulator.local\",\"private_key\":\"\",\"private_key_id\":\"\"}",
    );
    json
}

/// The path of an object reads back from its name.
pub proof fn law_object_names_read_back(base: Seq<char>, path: Seq<char>)
    ensures
        path_below(base, object_name(base, path)) == path,
{
    if base.len() > 0 {
        let name = object_name(base, path);
        assert(name.take(base.len() as int + 1) =~= base.push('/'));
        assert(name.skip(base.len() as int + 1) =~= path);
    }
}

/// A file that is on both sides is copied one way at most, and not at all where both are
/// equally old.
pub proof fn law_sync_never_copies_both_ways(
    local: Seq<(String, i128)>,
    remote: Seq<(String, i128)>,
    i: int,
    j: int,
)
    requires
        0 <= i < local.len(),
        0 <= j < remote.len(),
        local[i].0@ == remote[j].0@,
        changed_at(local, local[i].0@) == Some(local[i].1),
        changed_at(remote, remote[j].0@) == Some(remote[j].1),
    ensures
        !(to_copy(local[i], remote) && to_copy(remote[j], local)),
        local[i].1 == remote[j].1 ==> !to_copy(local[i], remote) && !to_copy(remote[j], local),
        local[i].1 > remote[j].1 ==> to_copy(local[i], remote),
        local[i].1 < remote[j].1 ==> to_copy(remote[j], local),
{
}

/// A file that is on one side only is copied to the other.
pub proof fn law_sync_copies_what_is_missing(
    files: Seq<(String, i128)>,
    other: Seq<(String, i128)>,
    i: int,
)
    requires
        0 <= i < files.len(),
        files.len() <= usize::MAX,
        changed_at(other, files[i].0@) is None,
    ensures
        newer_than(files, other).contains(i as usize),
    decreases files.len(),
{
    let head = files.drop_last();
    let n = newer_than(files, other);
    let h = newer_than(head, other);
    if i == files.len() - 1 {
        assert(n[h.len() as int] == i as usize);
    } else {
        law_sync_copies_what_is_missing(head, other, i);
        let k = choose|k: int| 0 <= k < h.len() && h[k] == i as usize;
        assert(n[k] == i as usize);
    }
}

proof fn lemma_first_slash(s: Seq<char>, i: int)
    requires
        0 <= i <= s.len(),
    ensures
        i <= first_slash(s, i) <= s.len(),
        first_slash(s, i) < s.len() ==> s[first_slash(s, i)] == '/',
        forall|k: int| i <= k < first_slash(s, i) ==> #[trigger] s[k] != '/',
    decreases s.len() - i,
{
    if i < s.len() && s[i] != '/' {
        lemma_first_slash(s, i + 1);
    }
}

/// An address is read as it is written: the scheme names the provider, what follows up to the
/// first slash is the bucket, and what stands behind that slash is the path.
pub proof fn law_addresses_read_back(bucket: Seq<char>, path: Seq<char>)
    requires
        !bucket.contains('/'),
    ensures
        ({
            let s3 = seq!['s', '3', ':', '/', '/'];
            let gs = seq!['g', 's', ':', '/', '/'];
            &&& provider_of(s3 + bucket) == Some(Provider::S3)
            &&& provider_of(gs + bucket) == Some(Provider::Gcs)
            &&& bucket_of(s3 + bucket) == bucket && bucket_of(gs + bucket) == bucket
            &&& base_of(s3 + bucket).len() == 0 && base_of(gs + bucket).len() == 0
            &&& provider_of(s3 + bucket + seq!['/'] + path) == Some(Provider::S3)
            &&& provider_of(gs + bucket + seq!['/'] + path) == Some(Provider::Gcs)
            &&& bucket_of(s3 + bucket + seq!['/'] + path) == bucket
            &&& bucket_of(gs + bucket + seq!['/'] + path) == bucket
            &&& base_of(s3 + bucket + seq!['/'] + path) == path
            &&& base_of(gs + bucket + seq!['/'] + path) == path
        }),
{
    lemma_address(seq!['s', '3', ':', '/', '/'], bucket, path);
    lemma_address(seq!['g', 's', ':', '/', '/'], bucket, path);
}

proof fn lemma_address(scheme: Seq<char>, bucket: Seq<char>, path: Seq<char>)
    requires
        !bucket.contains('/'),
        scheme == seq!['s', '3', ':', '/', '/'] || scheme == seq!['g', 's', ':', '/', '/'],
    ensures
        ({
            let kind = if scheme[0] == 's' {
                Provider::S3
            } else {
                Provider::Gcs
            };
            let short = scheme + bucket;
            let long = scheme + bucket + seq!['/'] + path;
            &&& provider_of(short) == Some(kind) && provider_of(long) == Some(kind)
            &&& bucket_of(short) == bucket && bucket_of(long) == bucket
            &&& base_of(short).len() == 0
            &&& base_of(long) == path
        }),
{
    reveal_strlit("s3://");
    reveal_strlit("gs://");
    let short = scheme + bucket;
    let long = scheme + bucket + seq!['/'] + path;
    assert("s3://"@ =~= seq!['s', '3', ':', '/', '/']);
    assert("gs://"@ =~= seq!['g', 's', ':', '/', '/']);
    assert(short.take(5) =~= scheme);
    assert(long.take(5) =~= scheme);
    assert("s3://"@[0] == 's' && "gs://"@[0] == 'g');
    assert(short.take(5)[0] == scheme[0]);
    let a = behind_scheme(short);
    let b = behind_scheme(long);
    assert(a =~= bucket);
    assert(b =~= bucket + seq!['/'] + path);
    lemma_first_slash(a, 0);
    lemma_first_slash(b, 0);
    let n = bucket.len() as int;
    assert(b[n] == '/');
    assert(first_slash(a, 0) == n) by {
        if first_slash(a, 0) < n {
            assert(bucket[first_slash(a, 0)] == '/');
        }
    }
    assert(first_slash(b, 0) == n) by {
        if first_slash(b, 0) < n {
            assert(bucket[first_slash(b, 0)] == '/');
        }
    }
    assert(a.take(n) =~= bucket);
    assert(b.take(n) =~= bucket);
    assert(b.skip(n + 1) =~= path);
}

/// The time of a path is that of the last file with it; a path that no file has has none.
pub proof fn law_changed_at(files: Seq<(String, i128)>, path: Seq<char>)
    ensures
        match changed_at(files, path) {
            Some(t) => exists|i: int|
                0 <= i < files.len() && (#[trigger] files[i]).0@ == path && files[i].1 == t
                    && forall|j: int| i < j < files.len() ==> (#[trigger] files[j]).0@ != path,
            None => forall|j: int| 0 <= j < files.len() ==> (#[trigger] files[j]).0@ != path,
        },
    decreases files.len(),
{
    if files.len() > 0 {
        let n = files.len() - 1;
        if files[n].0@ != path {
            let head = files.drop_last();
            law_changed_at(head, path);
            if changed_at(head, path) is Some {
                let i = choose|i: int|
                    0 <= i < head.len() && (#[trigger] head[i]).0@ == path && head[i].1
                        == changed_at(head, path)->0 && forall|j: int|
                        i < j < head.len() ==> (#[trigger] head[j]).0@ != path;
                assert(files[i] == head[i]);
                assert forall|j: int| i < j < files.len() implies (#[trigger] files[j]).0@
                    != path by {
                    if j < n {
                        assert(head[j] == files[j]);
                    }
                }
            } else {
                assert forall|j: int| 0 <= j < files.len() implies (#[trigger] files[j]).0@
                    != path by {
                    if j < n {
                        assert(head[j] == files[j]);
                    }
                }
            }
        } else {
            assert(files[n].0@ == path);
        }
    }
}

/// A sync copies exactly the files that are missing on the other side or newer than there, in
/// order.
pub proof fn law_sync_is_exact(files: Seq<(String, i128)>, other: Seq<(String, i128)>)
    requires
        files.len() <= usize::MAX,
    ensures
        ({
            let r = newer_than(files, other);
            &&& forall|k: int| 0 <= k < r.len() ==> (#[trigger] r[k]) < files.len()
            &&& forall|j: int, k: int| 0 <= j < k < r.len() ==> #[trigger] r[j] < #[trigger] r[k]
            &&& forall|i: int|
                0 <= i < files.len() ==> (r.contains(i as usize) <==> (changed_at(
                    other,
                    (#[trigger] files[i]).0@,
                ) matches Some(t) ==> files[i].1 > t))
        }),
    decreases files.len(),
{
    if files.len() > 0 {
        let head = files.drop_last();
        law_sync_is_exact(head, other);
        let b = newer_than(head, other);
        let r = newer_than(files, other);
        let n = files.len() - 1;
        assert forall|i: int| 0 <= i < files.len() implies (r.contains(i as usize) <==> (changed_at(
            other,
            (#[trigger] files[i]).0@,
        ) matches Some(t) ==> files[i].1 > t)) by {
            if i < n {
                assert(head[i] == files[i]);
                if b.contains(i as usize) {
                    let k = choose|k: int| 0 <= k < b.len() && b[k] == i as usize;
                    assert(r[k] == i as usize);
                }
                if r.contains(i as usize) {
                    let k = choose|k: int| 0 <= k < r.len() && r[k] == i as usize;
                    assert(b[k] == i as usize);
                }
            } else {
                if r.contains(i as usize) {
                    let k = choose|k: int| 0 <= k < r.len() && r[k] == i as usize;
                    if k < b.len() {
                        assert(b[k] < head.len());
                    }
                }
                if to_copy(files[n], other) {
                    assert(r[b.len() as int] == n as usize);
                }
            }
        }
        assert forall|j: int, k: int| 0 <= j < k < r.len() implies #[trigger] r[j]
            < #[trigger] r[k] by {
            assert(r[j] == b[j]);
            if k < b.len() {
                assert(r[k] == b[k]);
            }
        }
        assert forall|k: int| 0 <= k < r.len() implies (#[trigger] r[k]) < files.len() by {
            if k < b.len() {
                assert(r[k] == b[k]);
            }
        }
    }
}

proof fn lemma_slashes_start(s: Seq<char>, n: int)
    requires
        0 <= n <= s.len(),
    ensures
        0 <= slashes_start(s, n) <= n,
        slashes_start(s, n) > 0 ==> s[slashes_start(s, n) - 1] != '/',
        forall|k: int| slashes_start(s, n) <= k < n ==> #[trigger] s[k] == '/',
    decreases n,
{
    if n > 0 && s[n - 1] == '/' {
        lemma_slashes_start(s, n - 1);
    }
}

/// The address of an emulator is its endpoint without the slashes at the end, and the path of the
/// service behind it unless it is there already.
pub proof fn law_emulator_address(host: Seq<char>, slashes: nat)
    requires
        host.len() > 0 ==> host.last() != '/',
    ensures
        ({
            let endpoint = host + Seq::new(slashes, |i: int| '/');
            let r = emulator_url(endpoint);
            let service = seq!['/', 's', 't', 'o', 'r', 'a', 'g', 'e', '/', 'v', '1'];
            &&& holds(host, service) ==> r == host
            &&& !holds(host, service) ==> r == host + service + seq!['/', 'b']
        }),
{
    let tail = Seq::new(slashes, |i: int| '/');
    let endpoint = host + tail;
    let n = endpoint.len() as int;
    lemma_slashes_start(endpoint, n);
    let m = slashes_start(endpoint, n);
    assert(m == host.len()) by {
        if m < host.len() {
            assert(endpoint[host.len() - 1] == '/');
            assert(host.last() == '/');
        }
        if m > host.len() {
            assert(endpoint[m - 1] == tail[m - 1 - host.len()]);
        }
    }
    assert(endpoint.take(m) =~= host);
    reveal_strlit("/storage/v1");
    reveal_strlit("/storage/v1/b");
    let service = seq!['/', 's', 't', 'o', 'r', 'a', 'g', 'e', '/', 'v', '1'];
    assert("/storage/v1"@ =~= service);
    assert("/storage/v1/b"@ =~= service + seq!['/', 'b']);
    assert(host + (service + seq!['/', 'b']) =~= host + service + seq!['/', 'b']);
}

} // verus!
