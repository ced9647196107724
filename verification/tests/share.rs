use radicle_artifact::ids::{Cid, Key};
use radicle_artifact::location::{EndpointId, Url};
use radicle_artifact::preset::{require_url, require_val, EndpointPreset};
use radicle_artifact::share::{
    artifact_kind, blake3_hash_to_cid, check_added, check_http_blob, cid_to_blake3_hash,
    compute_cid, default_fetchers, download, download_collection, member_data, sort_entries,
    verify_cid, ArtifactKind, Error, FetchError, HttpFetcher, Location, Source,
    BLAKE3_HASHSEQ_CODEC, HASH_CODE_BLAKE3, RAW_CODEC,
};

fn blob_cid(data: &[u8]) -> Cid {
    Cid::new_v1(RAW_CODEC, HASH_CODE_BLAKE3, blake3::hash(data).as_bytes()).unwrap()
}

fn collection_cid(data: &[u8]) -> Cid {
    Cid::new_v1(BLAKE3_HASHSEQ_CODEC, HASH_CODE_BLAKE3, blake3::hash(data).as_bytes()).unwrap()
}

fn hash(data: &[u8]) -> Key {
    Key::from_bytes(blake3::hash(data).as_bytes())
}

fn peer(n: u8) -> EndpointId {
    let key = iroh_base::SecretKey::from_bytes(&[n; 32]).public();
    EndpointId::from_key(Key::from_bytes(key.as_bytes())).unwrap()
}

fn no_fetch(_: &Source<'_>) -> Result<Vec<u8>, Error> {
    Err(Error::Http("unreachable".to_owned()))
}

#[test]
fn verify_cid_matches() {
    let data = b"hello world";
    let cid = blob_cid(data);
    assert!(verify_cid(data, &cid).is_ok());
}

#[test]
fn verify_cid_mismatch() {
    let data = b"hello world";
    let wrong_cid = blob_cid(b"wrong");
    match verify_cid(data, &wrong_cid) {
        Err(Error::CidMismatch { expected, actual }) => {
            assert_eq!(expected, wrong_cid.to_text());
            assert_eq!(actual, blob_cid(data).to_text());
        }
        _ => panic!("expected a mismatch"),
    }
}

#[test]
fn download_no_locations() {
    let cid = blob_cid(b"test");
    let result = download(&Vec::new(), &cid, &default_fetchers(), no_fetch);
    assert!(matches!(result, Err(Error::NoLocations)));
}

#[test]
fn download_unsupported_scheme() {
    let url = Url::parse("ftp://example.com/file").ok().unwrap();
    let cid = blob_cid(b"test");
    let result = download(&vec![Location::Url(&url)], &cid, &default_fetchers(), no_fetch);
    match result {
        Err(Error::AllFailed(errors)) => {
            assert_eq!(errors.len(), 1);
            assert!(matches!(&errors[0], Error::UnsupportedScheme(s) if s == "ftp"));
        }
        _ => panic!("expected a failure"),
    }
}

#[test]
fn cid_to_blake3_hash_roundtrip() {
    let data = b"test data";
    let cid = blob_cid(data);
    assert!(cid_to_blake3_hash(&cid).ok().unwrap() == hash(data));
}

#[test]
fn cid_to_blake3_hash_rejects_sha256() {
    let cid = Cid::new_v1(RAW_CODEC, 0x12, &[0u8; 32]).unwrap();
    assert!(matches!(cid_to_blake3_hash(&cid), Err(Error::Cid(_))));
}

#[test]
fn a_digest_of_another_length_is_rejected() {
    let odd = Cid::new_v1(RAW_CODEC, HASH_CODE_BLAKE3, &[7u8; 20]).unwrap();
    assert_eq!(Cid::parse(&odd.to_text()), Some(odd));
    let cid = Cid::new_v1(RAW_CODEC, HASH_CODE_BLAKE3, &[0u8; 20]).unwrap();
    assert!(matches!(cid_to_blake3_hash(&cid), Err(Error::Cid(_))));
}

#[test]
fn artifact_kind_blob() {
    assert!(artifact_kind(&blob_cid(b"test")).ok() == Some(ArtifactKind::Blob));
}

#[test]
fn artifact_kind_collection() {
    assert!(artifact_kind(&collection_cid(b"test")).ok() == Some(ArtifactKind::Collection));
}

#[test]
fn artifact_kind_unknown_codec() {
    let cid = Cid::new_v1(0x99, HASH_CODE_BLAKE3, blake3::hash(b"test").as_bytes()).unwrap();
    assert!(matches!(artifact_kind(&cid), Err(Error::Cid(_))));
}

#[test]
fn cid_to_blake3_works_with_hashseq_codec() {
    let data = b"test data";
    let cid = collection_cid(data);
    assert!(cid_to_blake3_hash(&cid).ok().unwrap() == hash(data));
}

// The same of fetching alone.

#[test]
fn lib_verify_cid_matches() {
    let data = b"hello world";
    assert!(verify_cid(data, &blob_cid(data)).is_ok());
}

#[test]
fn lib_verify_cid_mismatch() {
    let data = b"hello world";
    let wrong_cid = blob_cid(b"wrong");
    assert!(matches!(verify_cid(data, &wrong_cid), Err(FetchError::CidMismatch { .. })));
}

#[test]
fn lib_download_no_locations() {
    let result = download(&Vec::new(), &blob_cid(b"test"), &default_fetchers(), no_fetch);
    assert!(matches!(result, Err(FetchError::NoLocations)));
}

#[test]
fn lib_download_unsupported_scheme() {
    let url = Url::parse("ftp://example.com/file").ok().unwrap();
    let result = download(
        &vec![Location::Url(&url)],
        &blob_cid(b"test"),
        &default_fetchers(),
        no_fetch,
    );
    assert!(matches!(result, Err(FetchError::AllFailed(_))));
}

#[test]
fn lib_cid_to_blake3_hash_roundtrip() {
    let data = b"test data";
    assert!(cid_to_blake3_hash(&blob_cid(data)).ok().unwrap() == hash(data));
}

#[test]
fn lib_cid_to_blake3_hash_rejects_sha256() {
    let cid = Cid::new_v1(RAW_CODEC, 0x12, &[0u8; 32]).unwrap();
    assert!(matches!(cid_to_blake3_hash(&cid), Err(FetchError::Cid(_))));
}

#[test]
fn lib_artifact_kind_blob() {
    assert!(artifact_kind(&blob_cid(b"test")).ok() == Some(ArtifactKind::Blob));
}

#[test]
fn lib_artifact_kind_collection() {
    assert!(artifact_kind(&collection_cid(b"test")).ok() == Some(ArtifactKind::Collection));
}

#[test]
fn lib_artifact_kind_unknown_codec() {
    let cid = Cid::new_v1(0x99, HASH_CODE_BLAKE3, blake3::hash(b"test").as_bytes()).unwrap();
    assert!(matches!(artifact_kind(&cid), Err(FetchError::Cid(_))));
}

#[test]
fn lib_cid_to_blake3_works_with_hashseq_codec() {
    let data = b"test data";
    assert!(cid_to_blake3_hash(&collection_cid(data)).ok().unwrap() == hash(data));
}

#[test]
fn blake3_hash_to_cid_blob_roundtrip() {
    let h = hash(b"test data");
    let cid = blake3_hash_to_cid(h, ArtifactKind::Blob);
    assert!(artifact_kind(&cid).ok() == Some(ArtifactKind::Blob));
    assert!(cid_to_blake3_hash(&cid).ok().unwrap() == h);
    assert!(cid == blob_cid(b"test data"));
}

#[test]
fn blake3_hash_to_cid_collection_roundtrip() {
    let h = hash(b"test data");
    let cid = blake3_hash_to_cid(h, ArtifactKind::Collection);
    assert!(artifact_kind(&cid).ok() == Some(ArtifactKind::Collection));
    assert!(cid_to_blake3_hash(&cid).ok().unwrap() == h);
    assert!(cid == collection_cid(b"test data"));
}

#[test]
fn content_has_the_identifier_of_its_hash() {
    assert!(compute_cid(b"hello world") == blob_cid(b"hello world"));
    assert!(compute_cid(b"hello world") != compute_cid(b"hello worlds"));
    assert!(compute_cid(b"x").to_text().starts_with("bafkr4i"));
}

#[test]
fn a_download_goes_on_until_the_content_is_right() {
    let bad = Url::parse("https://bad.example/").ok().unwrap();
    let broken = Url::parse("http://broken.example/").ok().unwrap();
    let good = Url::parse("https://good.example/").ok().unwrap();
    let locations = vec![Location::Url(&bad), Location::Url(&broken), Location::Url(&good)];
    let fetch = |source: &Source<'_>| match source {
        Source::Url { fetcher: 0, url } => match url.as_str() {
            "https://bad.example/" => Ok(b"other".to_vec()),
            "https://good.example/" => Ok(b"right".to_vec()),
            _ => Err(Error::Http("500".to_owned())),
        },
        _ => Err(Error::Iroh("no peer".to_owned())),
    };
    let got = download(&locations, &compute_cid(b"right"), &default_fetchers(), fetch);
    assert_eq!(got.ok(), Some(b"right".to_vec()));
    let none = download(&locations, &compute_cid(b"third"), &default_fetchers(), fetch);
    match none {
        Err(Error::AllFailed(errors)) => {
            assert_eq!(errors.len(), 3);
            assert!(matches!(errors[0], Error::CidMismatch { .. }));
            assert!(matches!(errors[1], Error::Http(_)));
            assert!(matches!(errors[2], Error::CidMismatch { .. }));
        }
        _ => panic!("expected a failure"),
    }
}

#[test]
fn a_collection_comes_from_peers_only() {
    let url = Url::parse("https://a.example/").ok().unwrap();
    let only_url = vec![Location::Url(&url)];
    assert!(matches!(
        download_collection(&only_url, |_: &EndpointId| Ok(())),
        Err(Error::NoLocations)
    ));
    let locations =
        vec![Location::Iroh(peer(1)), Location::Url(&url), Location::Iroh(peer(2))];
    let second = |id: &EndpointId| {
        if *id == peer(2) {
            Ok(())
        } else {
            Err(Error::Iroh("away".to_owned()))
        }
    };
    assert!(download_collection(&locations, second).is_ok());
    let nobody = |_: &EndpointId| Err(Error::Iroh("away".to_owned()));
    assert!(matches!(
        download_collection(&locations, nobody),
        Err(Error::AllFailed(errors)) if errors.len() == 2
    ));
}

#[test]
fn fetchers_handle_http() {
    assert_eq!(HttpFetcher.schemes(), vec!["https".to_owned(), "http".to_owned()]);
}

#[test]
fn members_are_stored_by_name() {
    let entries = vec![
        ("b".to_owned(), hash(b"b")),
        ("a/z".to_owned(), hash(b"az")),
        ("a".to_owned(), hash(b"a")),
    ];
    assert_eq!(sort_entries(&entries), vec![2, 1, 0]);
    let data = vec![1u8];
    assert_eq!(member_data(Some(&data), "a").ok(), Some(&data));
    assert_eq!(
        member_data(None, "a").err().unwrap().message(),
        "iroh fetch failed: missing data for collection entry 'a'"
    );
}

#[test]
fn http_to_store_imports_matching_blob() {
    let body = b"hello over http".to_vec();
    let expected = blake3_hash_to_cid(hash(&body), ArtifactKind::Blob);
    assert!(check_http_blob(hash(&body), &expected).is_ok());
    assert!(cid_to_blake3_hash(&expected).ok() == Some(hash(&body)));
}

#[test]
fn http_to_store_rejects_mismatch() {
    let expected = blake3_hash_to_cid(hash(b"expected"), ArtifactKind::Blob);
    let err = check_http_blob(hash(b"something else entirely"), &expected).err().unwrap();
    assert!(matches!(err, Error::CidMismatch { .. }), "got {}", err.message());
}

#[test]
fn what_was_added_must_be_what_was_wanted() {
    let want = blob_cid(b"x");
    assert!(check_added(hash(b"x"), ArtifactKind::Blob, &want).is_ok());
    assert!(check_added(hash(b"y"), ArtifactKind::Blob, &want).is_err());
    assert!(check_added(hash(b"x"), ArtifactKind::Collection, &want).is_err());
    assert!(check_http_blob(hash(b"x"), &want).is_ok());
    assert!(check_http_blob(hash(b"y"), &want).is_err());
    let sha = Cid::new_v1(RAW_CODEC, 0x12, &[0u8; 32]).unwrap();
    assert_eq!(
        check_http_blob(hash(b"x"), &sha).err().unwrap().message(),
        "CID error: expected BLAKE3 multihash (0x1e), got 0x12"
    );
}

#[test]
fn errors_say_what_went_wrong() {
    assert_eq!(
        Error::UnsupportedScheme("ftp".to_owned()).message(),
        "unsupported URL scheme: ftp"
    );
    assert_eq!(Error::Http("x".to_owned()).message(), "HTTP fetch failed: x");
    assert_eq!(Error::Serve("x".to_owned()).message(), "serve error: x");
    assert_eq!(Error::Io("x".to_owned()).message(), "I/O error: x");
    assert_eq!(Error::Cid("x".to_owned()).message(), "CID error: x");
    assert_eq!(Error::NoLocations.message(), "no locations registered for this artifact");
    assert_eq!(Error::AllFailed(Vec::new()).message(), "all fetch attempts failed");
    assert_eq!(
        Error::CidMismatch { expected: "a".to_owned(), actual: "b".to_owned() }.message(),
        "CID mismatch: expected a, got b"
    );
}

#[test]
fn endpoint_preset_default_is_n0() {
    assert!(matches!(EndpointPreset::default(), EndpointPreset::N0));
}

#[test]
fn endpoint_preset_parse_empty_is_n0() {
    let preset = EndpointPreset::parse(|_: &str| None).ok().unwrap();
    assert!(matches!(preset, EndpointPreset::N0));
    assert_eq!(preset.to_text(), "n0");
}

#[test]
fn endpoint_preset_parse_radworks() {
    let preset = EndpointPreset::parse(|key: &str| match key {
        "RADWORKS_IROH_PRESET" => Some("radworks".to_owned()),
        "RADWORKS_RELAY_URL" => Some("https://relay.example.com".to_owned()),
        "RADWORKS_PKARR_URL" => Some("https://pkarr.example.com".to_owned()),
        "RADWORKS_DNS_DOMAIN" => Some("example.com".to_owned()),
        _ => None,
    })
    .ok()
    .unwrap();
    assert!(matches!(preset, EndpointPreset::Radworks { .. }));
    assert_eq!(preset.to_text(), "radworks (relay=https://relay.example.com/)");
}

#[test]
fn endpoint_preset_parse_radworks_missing_url() {
    let result = EndpointPreset::parse(|key: &str| match key {
        "RADWORKS_IROH_PRESET" => Some("radworks".to_owned()),
        _ => None,
    });
    assert!(matches!(result, Err(Error::Iroh(_))));
    assert!(matches!(
        result,
        Err(Error::Iroh(s))
            if s == "RADWORKS_RELAY_URL is required when RADWORKS_IROH_PRESET=radworks"
    ));
}

#[test]
fn endpoint_preset_parse_unknown_value() {
    let result = EndpointPreset::parse(|key: &str| match key {
        "RADWORKS_IROH_PRESET" => Some("foo".to_owned()),
        _ => None,
    });
    assert!(matches!(result, Err(Error::Iroh(_))));
    assert!(matches!(
        result,
        Err(Error::Iroh(s))
            if s == "unknown RADWORKS_IROH_PRESET value: \"foo\" (expected \"n0\" or \"radworks\")"
    ));
}

#[test]
fn settings_are_checked() {
    assert_eq!(require_val(Some("v".to_owned()), "K").ok(), Some("v".to_owned()));
    assert!(require_val(None, "K").is_err());
    assert!(require_url(Some("https://a.example".to_owned()), "K").is_ok());
    assert_eq!(
        require_url(Some("nope".to_owned()), "K").err().unwrap().message(),
        "iroh fetch failed: K is not a valid URL: relative URL without a base"
    );
}
