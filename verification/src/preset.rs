//! Where endpoints find relays and other endpoints.

use crate::display::opt_text;
use crate::error::{quote, str_debug};
use crate::location::{url_parse, Url};
use crate::share::Error;
use crate::text::{cat3, cat4};
use vstd::prelude::*;

verus! {

/// The setting that names the preset.
pub const ENV_IROH_PRESET: &'static str = "RADWORKS_IROH_PRESET";

/// The setting with the URL of the relay.
pub const ENV_RELAY_URL: &'static str = "RADWORKS_RELAY_URL";

/// The setting with the URL of the pkarr relay.
pub const ENV_PKARR_URL: &'static str = "RADWORKS_PKARR_URL";

/// The setting with the DNS origin domain.
pub const ENV_DNS_DOMAIN: &'static str = "RADWORKS_DNS_DOMAIN";

/// The relays and discovery services of an endpoint.
pub enum EndpointPreset {
    /// Those of n0.
    N0,
    /// Those of Radworks.
    Radworks {
        relay_url: Url,
        pkarr_relay_url: Url,
        dns_origin_domain: String,
    },
}

/// What a preset is.
pub enum PresetView {
    N0,
    Radworks {
        relay_url: Seq<char>,
        pkarr_relay_url: Seq<char>,
        dns_origin_domain: Seq<char>,
    },
}

impl View for EndpointPreset {
    type V = PresetView;

    open spec fn view(&self) -> PresetView {
        match self {
            EndpointPreset::N0 => PresetView::N0,
            EndpointPreset::Radworks { relay_url, pkarr_relay_url, dns_origin_domain } =>
                PresetView::Radworks {
                relay_url: relay_url@,
                pkarr_relay_url: pkarr_relay_url@,
                dns_origin_domain: dns_origin_domain@,
            },
        }
    }
}

impl Default for EndpointPreset {
    fn default() -> (r: EndpointPreset)
        ensures
            r == EndpointPreset::N0,
    {
        EndpointPreset::N0
    }
}

/// The value of a setting that has to be there, or what is to be said.
pub open spec fn required(value: Option<Seq<char>>, key: Seq<char>) -> Result<Seq<char>, Seq<char>> {
    match value {
        Some(v) => Ok(v),
        None => Err(key + " is required when "@ + ENV_IROH_PRESET@ + "=radworks"@),
    }
}

/// The URL in a setting that has to be there, or what is to be said.
pub open spec fn required_url(value: Option<Seq<char>>, key: Seq<char>) -> Result<
    Seq<char>,
    Seq<char>,
> {
    match required(value, key) {
        Ok(v) => match url_parse(v) {
            Ok(url) => Ok(url),
            Err(e) => Err(key + " is not a valid URL: "@ + e),
        },
        Err(e) => Err(e),
    }
}

/// The preset that the settings give, or what is to be said.
pub open spec fn preset_of(
    preset: Option<Seq<char>>,
    relay: Option<Seq<char>>,
    pkarr: Option<Seq<char>>,
    dns: Option<Seq<char>>,
) -> Result<PresetView, Seq<char>> {
    let name = match preset {
        Some(name) => name,
        None => ""@,
    };
    if name == ""@ || name == "n0"@ {
        Ok(PresetView::N0)
    } else if name == "radworks"@ {
        match required_url(relay, ENV_RELAY_URL@) {
            Err(e) => Err(e),
            Ok(relay_url) => match required_url(pkarr, ENV_PKARR_URL@) {
                Err(e) => Err(e),
                Ok(pkarr_relay_url) => match required(dns, ENV_DNS_DOMAIN@) {
                    Err(e) => Err(e),
                    Ok(dns_origin_domain) => Ok(
                        PresetView::Radworks { relay_url, pkarr_relay_url, dns_origin_domain },
                    ),
                },
            },
        }
    } else {
        Err(
            "unknown "@ + ENV_IROH_PRESET@ + " value: "@ + str_debug(name)
                + " (expected \"n0\" or \"radworks\")"@,
        )
    }
}

/// Whether a result is a value or what is to be said, as stated.
pub open spec fn agrees<T: View>(r: Result<T, Error>, stated: Result<T::V, Seq<char>>) -> bool {
    match r {
        Ok(v) => stated == Ok::<T::V, Seq<char>>(v@),
        Err(e) => e is Iroh && stated == Err::<T::V, Seq<char>>(e->Iroh_0@),
    }
}

/// The value of a setting that has to be there.
pub fn require_val(value: Option<String>, key: &str) -> (r: Result<String, Error>)
    ensures
        agrees(r, required(opt_text(value), key@)),
{
    match value {
        Some(v) => Ok(v),
        None => Err(Error::Iroh(cat4(key, " is required when ", ENV_IROH_PRESET, "=radworks"))),
    }
}

/// The URL in a setting that has to be there.
pub fn require_url(value: Option<String>, key: &str) -> (r: Result<Url, Error>)
    ensures
        agrees(r, required_url(opt_text(value), key@)),
{
    match require_val(value, key) {
        Err(e) => Err(e),
        Ok(v) => match Url::parse(v.as_str()) {
            Ok(url) => Ok(url),
            Err(e) => Err(Error::Iroh(cat3(key, " is not a valid URL: ", e.as_str()))),
        },
    }
}

/// Whether `get` can give `value` for the setting `key`.
pub open spec fn gives<F: Fn(&str) -> Option<String>>(
    get: F,
    key: &str,
    value: Option<String>,
) -> bool {
    get.ensures((key,), value)
}

impl EndpointPreset {
    /// The preset that settings give: `n0`, unless the settings name another.
    pub fn from_settings(
        preset: Option<String>,
        relay: Option<String>,
        pkarr: Option<String>,
        dns: Option<String>,
    ) -> (r: Result<EndpointPreset, Error>)
        ensures
            agrees(
                r,
                preset_of(opt_text(preset), opt_text(relay), opt_text(pkarr), opt_text(dns)),
            ),
    {
        let name = match preset {
            Some(name) => name,
            None => "".to_owned(),
        };
        if name == "".to_owned() || name == "n0".to_owned() {
            return Ok(EndpointPreset::N0);
        }
        if name == "radworks".to_owned() {
            let relay_url = match require_url(relay, ENV_RELAY_URL) {
                Ok(url) => url,
                Err(e) => {
                    return Err(e);
                },
            };
            let pkarr_relay_url = match require_url(pkarr, ENV_PKARR_URL) {
                Ok(url) => url,
                Err(e) => {
                    return Err(e);
                },
            };
            let dns_origin_domain = match require_val(dns, ENV_DNS_DOMAIN) {
                Ok(domain) => domain,
                Err(e) => {
                    return Err(e);
                },
            };
            return Ok(
                EndpointPreset::Radworks { relay_url, pkarr_relay_url, dns_origin_domain },
            );
        }
        let shown = quote(name.as_str());
        let mut text = cat4("unknown ", ENV_IROH_PRESET, " value: ", shown.as_str());
        text.append(" (expected \"n0\" or \"radworks\")");
        Err(Error::Iroh(text))
    }

    /// The preset that the settings give, each of which `get` looks up by its name.
    pub fn parse<F: Fn(&str) -> Option<String>>(get: F) -> (r: Result<EndpointPreset, Error>)
        requires
            forall|key: &str| #[trigger] get.requires((key,)),
        ensures
            exists|
                preset: Option<String>,
                relay: Option<String>,
                pkarr: Option<String>,
                dns: Option<String>,
            |
                {
                    &&& #[trigger] gives(get, ENV_IROH_PRESET, preset)
                    &&& #[trigger] gives(get, ENV_RELAY_URL, relay)
                    &&& #[trigger] gives(get, ENV_PKARR_URL, pkarr)
                    &&& #[trigger] gives(get, ENV_DNS_DOMAIN, dns)
                    &&& agrees(
                        r,
                        preset_of(
                            opt_text(preset),
                            opt_text(relay),
                            opt_text(pkarr),
                            opt_text(dns),
                        ),
                    )
                },
    {
        let preset = get(ENV_IROH_PRESET);
        let relay = get(ENV_RELAY_URL);
        let pkarr = get(ENV_PKARR_URL);
        let dns = get(ENV_DNS_DOMAIN);
        assert(gives(get, ENV_IROH_PRESET, preset));
        assert(gives(get, ENV_RELAY_URL, relay));
        assert(gives(get, ENV_PKARR_URL, pkarr));
        assert(gives(get, ENV_DNS_DOMAIN, dns));
        EndpointPreset::from_settings(preset, relay, pkarr, dns)
    }

    /// The preset as text.
    pub fn to_text(&self) -> (r: String)
        ensures
            r@ == (match self@ {
                PresetView::N0 => "n0"@,
                PresetView::Radworks { relay_url, .. } => "radworks (relay="@ + relay_url + ")"@,
            }),
    {
        match self {
            EndpointPreset::N0 => "n0".to_owned(),
            EndpointPreset::Radworks { relay_url, .. } => cat3(
                "radworks (relay=",
                relay_url.as_str(),
                ")",
            ),
        }
    }
}

/// What settings give. Without a name, or under the name `n0`, the preset is that of n0,
/// whatever else is set; under the name `radworks` all three other settings have to be
/// there and both URLs have to be URLs; and any other name is refused.
pub proof fn law_a_preset_needs_its_settings(
    preset: Option<Seq<char>>,
    relay: Option<Seq<char>>,
    pkarr: Option<Seq<char>>,
    dns: Option<Seq<char>>,
)
    ensures
        preset is None ==> preset_of(preset, relay, pkarr, dns) == Ok::<PresetView, Seq<char>>(
            PresetView::N0,
        ),
        preset matches Some(name) && (name.len() == 0 || name == "n0"@) ==> preset_of(
            preset,
            relay,
            pkarr,
            dns,
        ) == Ok::<PresetView, Seq<char>>(PresetView::N0),
        preset == Some("radworks"@) ==> (preset_of(preset, relay, pkarr, dns) is Ok <==> relay is Some
            && pkarr is Some && dns is Some && url_parse(relay->0) is Ok && url_parse(
            pkarr->0,
        ) is Ok),
        preset == Some("radworks"@) ==> (preset_of(preset, relay, pkarr, dns) matches Ok(p) ==> p
            == (PresetView::Radworks {
            relay_url: url_parse(relay->0)->Ok_0,
            pkarr_relay_url: url_parse(pkarr->0)->Ok_0,
            dns_origin_domain: dns->0,
        })),
        preset matches Some(name) && name.len() > 0 && name != "n0"@ && name != "radworks"@
            ==> preset_of(preset, relay, pkarr, dns) is Err,
{
    reveal_strlit("");
    reveal_strlit("n0");
    reveal_strlit("radworks");
    assert("n0"@.len() != "radworks"@.len());
    if preset is Some && preset->0.len() == 0 {
        assert(preset->0 =~= ""@);
    }
}

/// `EndpointPreset::from_settings` keeps each setting for what it is for.
pub proof fn law_settings_are_taken_for_what_they_are_for(
    preset: Option<String>,
    relay: Option<String>,
    pkarr: Option<String>,
    dns: Option<String>,
    r: Result<EndpointPreset, Error>,
)
    requires
        call_ensures(EndpointPreset::from_settings, (preset, relay, pkarr, dns), r),
    ensures
        preset is None ==> r is Ok && r->Ok_0 is N0,
        r is Ok && r->Ok_0 is Radworks ==> {
            &&& preset is Some && preset->0@ == "radworks"@
            &&& relay is Some && pkarr is Some && dns is Some
            &&& url_parse(relay->0@) == Ok::<Seq<char>, Seq<char>>(r->Ok_0->relay_url@)
            &&& url_parse(pkarr->0@) == Ok::<Seq<char>, Seq<char>>(r->Ok_0->pkarr_relay_url@)
            &&& r->Ok_0->dns_origin_domain@ == dns->0@
        },
        preset is Some && preset->0@ == "radworks"@ ==> r is Err || r->Ok_0 is Radworks,
{
    law_a_preset_needs_its_settings(
        opt_text(preset),
        opt_text(relay),
        opt_text(pkarr),
        opt_text(dns),
    );
    reveal_strlit("");
    reveal_strlit("n0");
    reveal_strlit("radworks");
    assert("n0"@.len() != "radworks"@.len());
}

} // verus!
